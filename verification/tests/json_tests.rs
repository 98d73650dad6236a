use minijson::parser::{expect, parse, parse_exponent, parse_fraction, parse_integer, skip_ws};
use minijson::printer::print;
use minijson::value::{ParseError, Value};

fn s(text: &str) -> String {
    String::from(text)
}

#[test]
fn parse_null_value() {
    assert_eq!(parse("null"), Ok(Value::Null));
}

#[test]
fn print_null_value() {
    assert_eq!(print(&Value::Null), "null");
}

#[test]
fn parse_true_value() {
    assert_eq!(parse("true"), Ok(Value::Bool(true)));
}

#[test]
fn parse_false_value() {
    assert_eq!(parse("false"), Ok(Value::Bool(false)));
}

#[test]
fn parse_capital_false_fails() {
    // `False` is routed to the number parser, which wants a digit.
    assert_eq!(
        parse("False"),
        Err(ParseError::ExpectedDigit { found: Some('F') })
    );
}

#[test]
fn parse_misspelled_literal_fails() {
    assert!(matches!(
        parse("nul"),
        Err(ParseError::LiteralMismatch { .. })
    ));
}

#[test]
fn parse_array_of_ints() {
    assert_eq!(
        parse("[1,2,3]"),
        Ok(Value::Array(vec![
            Value::Int(1),
            Value::Int(2),
            Value::Int(3)
        ]))
    );
}

#[test]
fn print_array_of_ints() {
    let v = Value::Array(vec![Value::Int(1), Value::Int(2), Value::Int(3)]);
    assert_eq!(print(&v), "[1,2,3]");
}

#[test]
fn parse_empty_array() {
    assert_eq!(parse("[ ]"), Ok(Value::Array(vec![])));
    assert_eq!(print(&Value::Array(vec![])), "[]");
}

#[test]
fn parse_empty_object() {
    assert_eq!(parse("{ }"), Ok(Value::Object(vec![])));
    assert_eq!(print(&Value::Object(vec![])), "{}");
}

#[test]
fn duplicate_keys_last_wins() {
    assert_eq!(
        parse("{\"a\":1,\"a\":2}"),
        Ok(Value::Object(vec![(s("a"), Value::Int(2))]))
    );
}

#[test]
fn parse_object_keeps_insertion_order() {
    let v = parse("{\"b\":1,\"a\":2}").unwrap();
    assert_eq!(
        v,
        Value::Object(vec![(s("b"), Value::Int(1)), (s("a"), Value::Int(2))])
    );
    assert_eq!(print(&v), "{\"b\":1,\"a\":2}");
}

#[test]
fn fraction_marker_forces_double() {
    assert_eq!(parse("1.0"), Ok(Value::Double(s("1.0"))));
}

#[test]
fn exponent_marker_forces_double() {
    assert_eq!(parse("1e5"), Ok(Value::Double(s("1e5"))));
    assert_eq!(parse("1.5e-3"), Ok(Value::Double(s("1.5e-3"))));
    assert_eq!(parse("2E+7"), Ok(Value::Double(s("2E+7"))));
}

#[test]
fn bare_fraction_dot_is_double() {
    assert_eq!(parse("1."), Ok(Value::Double(s("1."))));
}

#[test]
fn empty_exponent_is_number_format_error() {
    assert_eq!(
        parse("1e"),
        Err(ParseError::NumberFormat { text: s("1e") })
    );
    assert_eq!(
        parse("1e+"),
        Err(ParseError::NumberFormat { text: s("1e+") })
    );
}

#[test]
fn int_overflow_is_number_format_error() {
    assert_eq!(
        parse("99999999999999999999"),
        Err(ParseError::NumberFormat {
            text: s("99999999999999999999")
        })
    );
}

#[test]
fn int_bounds_parse_exactly() {
    assert_eq!(
        parse("9223372036854775807"),
        Ok(Value::Int(9223372036854775807))
    );
    assert_eq!(
        parse("-9223372036854775808"),
        Ok(Value::Int(-9223372036854775808))
    );
    assert!(matches!(
        parse("9223372036854775808"),
        Err(ParseError::NumberFormat { .. })
    ));
    assert!(matches!(
        parse("-9223372036854775809"),
        Err(ParseError::NumberFormat { .. })
    ));
}

#[test]
fn leading_zeroes_are_accepted() {
    assert_eq!(parse("007"), Ok(Value::Int(7)));
}

#[test]
fn negative_int_parses() {
    assert_eq!(parse("-42"), Ok(Value::Int(-42)));
    assert_eq!(print(&Value::Int(-42)), "-42");
}

#[test]
fn print_int_bounds() {
    assert_eq!(print(&Value::Int(i64::MAX)), "9223372036854775807");
    assert_eq!(print(&Value::Int(i64::MIN)), "-9223372036854775808");
    assert_eq!(print(&Value::Int(0)), "0");
}

#[test]
fn lone_minus_is_expected_digit_error() {
    assert_eq!(parse("-"), Err(ParseError::ExpectedDigit { found: None }));
}

#[test]
fn unterminated_string_is_premature_end() {
    assert_eq!(parse("\"abc"), Err(ParseError::PrematureEnd));
}

#[test]
fn string_content_is_raw() {
    assert_eq!(parse("\"hello\""), Ok(Value::Str(s("hello"))));
}

#[test]
fn escape_sequences_pass_through_verbatim() {
    // The backslash and the following character are copied as-is, and any
    // run of hex-or-digit characters after them is folded in too.
    assert_eq!(parse("\"a\\u0041b\""), Ok(Value::Str(s("a\\u0041b"))));
    assert_eq!(parse("\"a\\n1b\""), Ok(Value::Str(s("a\\n1b"))));
}

#[test]
fn print_string_applies_no_escaping() {
    assert_eq!(print(&Value::Str(s("a\\n1b"))), "\"a\\n1b\"");
}

#[test]
fn trailing_comma_in_array_is_rejected() {
    // After the trailing comma the loop parses one more element, and the
    // dispatcher hands `]` to the number parser.
    assert_eq!(
        parse("[1,2,]"),
        Err(ParseError::ExpectedDigit { found: Some(']') })
    );
}

#[test]
fn trailing_comma_in_object_is_rejected() {
    assert_eq!(
        parse("{\"a\":1,}"),
        Err(ParseError::StructuralMismatch {
            expected: '"',
            found: Some('}')
        })
    );
}

#[test]
fn missing_colon_is_structural_mismatch() {
    assert_eq!(
        parse("{\"a\" 1}"),
        Err(ParseError::StructuralMismatch {
            expected: ':',
            found: Some('1')
        })
    );
}

#[test]
fn missing_closing_bracket_is_structural_mismatch() {
    assert_eq!(
        parse("[1"),
        Err(ParseError::StructuralMismatch {
            expected: ']',
            found: None
        })
    );
}

#[test]
fn empty_input_is_premature_end() {
    assert_eq!(parse(""), Err(ParseError::PrematureEnd));
    assert_eq!(parse("   "), Err(ParseError::PrematureEnd));
}

#[test]
fn whitespace_around_tokens_is_skipped() {
    assert_eq!(
        parse(" { \"k\" :\t[ 1 ,\n 2 ] } "),
        Ok(Value::Object(vec![(
            s("k"),
            Value::Array(vec![Value::Int(1), Value::Int(2)])
        )]))
    );
}

#[test]
fn trailing_garbage_is_ignored() {
    assert_eq!(parse("true garbage"), Ok(Value::Bool(true)));
    assert_eq!(parse("[1] [2]"), Ok(Value::Array(vec![Value::Int(1)])));
}

#[test]
fn nested_values_round_trip() {
    let v = Value::Object(vec![
        (s("name"), Value::Str(s("deep thought"))),
        (s("answer"), Value::Int(42)),
        (s("on"), Value::Bool(true)),
        (s("nothing"), Value::Null),
        (
            s("list"),
            Value::Array(vec![
                Value::Int(-1),
                Value::Array(vec![]),
                Value::Object(vec![(s("x"), Value::Int(0))]),
            ]),
        ),
    ]);
    let text = print(&v);
    assert_eq!(parse(&text), Ok(v));
}

#[test]
fn doubles_round_trip_textually() {
    let v = parse("[1.5,2e3]").unwrap();
    assert_eq!(print(&v), "[1.5,2e3]");
    assert_eq!(parse(&print(&v)), Ok(v));
}

#[test]
fn deep_nesting_parses() {
    let depth = 200;
    let mut text = String::new();
    for _ in 0..depth {
        text.push('[');
    }
    for _ in 0..depth {
        text.push(']');
    }
    let mut expected = Value::Array(vec![]);
    for _ in 0..depth - 1 {
        expected = Value::Array(vec![expected]);
    }
    assert_eq!(parse(&text), Ok(expected));
}

#[test]
fn skip_ws_consumes_only_whitespace() {
    let chars: Vec<char> = " \t\r\n x".chars().collect();
    assert_eq!(skip_ws(&chars, 0), 5);
    assert_eq!(skip_ws(&chars, 5), 5);
}

#[test]
fn parse_integer_collects_sign_and_digits() {
    let chars: Vec<char> = "-123x".chars().collect();
    let (r, pos) = parse_integer(&chars, 0);
    assert_eq!(r.unwrap(), vec!['-', '1', '2', '3']);
    assert_eq!(pos, 4);
}

#[test]
fn parse_fraction_absent_yields_none() {
    let chars: Vec<char> = "12".chars().collect();
    let (r, pos) = parse_fraction(&chars, 0);
    assert!(r.is_none());
    assert_eq!(pos, 0);
}

#[test]
fn parse_fraction_collects_dot_and_digits() {
    let chars: Vec<char> = ".25e".chars().collect();
    let (r, pos) = parse_fraction(&chars, 0);
    assert_eq!(r.unwrap(), vec!['.', '2', '5']);
    assert_eq!(pos, 3);
}

#[test]
fn parse_exponent_collects_marker_sign_digits() {
    let chars: Vec<char> = "E-25x".chars().collect();
    let (r, pos) = parse_exponent(&chars, 0);
    assert_eq!(r.unwrap(), vec!['E', '-', '2', '5']);
    assert_eq!(pos, 4);
}

#[test]
fn parse_exponent_absent_yields_none() {
    let chars: Vec<char> = "12".chars().collect();
    let (r, pos) = parse_exponent(&chars, 0);
    assert!(r.is_none());
    assert_eq!(pos, 0);
}

#[test]
fn expect_consumes_only_the_expected_character() {
    let chars: Vec<char> = ":x".chars().collect();
    let (ok, pos) = expect(&chars, 0, ':');
    assert!(ok.is_ok());
    assert_eq!(pos, 1);
    let (err, pos2) = expect(&chars, 1, ':');
    assert_eq!(
        err,
        Err(ParseError::StructuralMismatch {
            expected: ':',
            found: Some('x')
        })
    );
    assert_eq!(pos2, 1);
}

#[test]
fn object_key_position_must_be_string() {
    // A non-string key fails in the string parser; nothing is recovered.
    assert_eq!(
        parse("{1:2}"),
        Err(ParseError::StructuralMismatch {
            expected: '"',
            found: Some('1')
        })
    );
}
