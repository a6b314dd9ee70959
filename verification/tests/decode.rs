use hyperjson::{loads, loads_impl, DecodeInput, HostContext, HostKey, HostValue, HyperJsonError};

type Hook = fn(String) -> Result<HostValue, String>;

const NO_HOOK: Option<Hook> = None;

fn text_input(s: &str) -> DecodeInput {
    DecodeInput { text: Some(s.to_string()), bytes: None }
}

fn bytes_input(b: &[u8]) -> DecodeInput {
    DecodeInput { text: None, bytes: Some(b.to_vec()) }
}

fn decode(s: &str) -> Result<HostValue, HyperJsonError> {
    let ctx = HostContext::new();
    loads_impl(&ctx, &text_input(s), &NO_HOOK, &NO_HOOK)
}

fn key(s: &str) -> HostKey {
    HostKey::Text(s.to_string())
}

fn float(s: &str) -> HostValue {
    HostValue::Float(s.to_string())
}

fn doubling(literal: String) -> Result<HostValue, String> {
    match literal.parse::<u64>() {
        Ok(n) => Ok(HostValue::Unsigned(2 * n)),
        Err(e) => Err(e.to_string()),
    }
}

fn failing(literal: String) -> Result<HostValue, String> {
    Err(format!("cannot build {}", literal))
}

fn tagging(literal: String) -> Result<HostValue, String> {
    Ok(HostValue::Text(literal))
}

#[test]
fn decodes_literals() {
    assert_eq!(decode("null"), Ok(HostValue::Null));
    assert_eq!(decode("true"), Ok(HostValue::Bool(true)));
    assert_eq!(decode("false"), Ok(HostValue::Bool(false)));
    assert_eq!(decode("\"a\\nb\""), Ok(HostValue::Text("a\nb".to_string())));
    assert_eq!(decode(" [ ] "), Ok(HostValue::List(vec![])));
    assert_eq!(decode("{}"), Ok(HostValue::Mapping(vec![])));
}

#[test]
fn decodes_numbers_to_narrowest_integer() {
    assert_eq!(decode("0"), Ok(HostValue::Unsigned(0)));
    assert_eq!(decode("18446744073709551615"), Ok(HostValue::Unsigned(u64::MAX)));
    assert_eq!(decode("-1"), Ok(HostValue::Signed(-1)));
    assert_eq!(decode("-9223372036854775808"), Ok(HostValue::Signed(i64::MIN)));
    assert_eq!(decode("-0"), Ok(HostValue::Unsigned(0)));
    assert_eq!(decode("18446744073709551616"), Ok(float("18446744073709551616")));
    assert_eq!(decode("-9223372036854775809"), Ok(float("-9223372036854775809")));
    assert_eq!(decode("1.5"), Ok(float("1.5")));
    assert_eq!(decode("1.0"), Ok(float("1.0")));
    assert_eq!(decode("-2.5e-3"), Ok(float("-2.5e-3")));
}

#[test]
fn exponents_are_marked_alike() {
    assert_eq!(decode("1E5"), Ok(float("1e+5")));
    assert_eq!(decode("1e5"), Ok(float("1e+5")));
    assert_eq!(decode("1.25E-5"), Ok(float("1.25e-5")));
    assert_eq!(decode("1e999"), Ok(float("1e+999")));
}

#[test]
fn trailing_data_is_rejected() {
    match decode("1 2") {
        Err(HyperJsonError::TrailingData { .. }) => {}
        other => panic!("unexpected outcome {:?}", other),
    }
    assert_eq!(decode("1"), Ok(HostValue::Unsigned(1)));
    assert_eq!(decode(" 1 \n"), Ok(HostValue::Unsigned(1)));
}

#[test]
fn trailing_data_reports_position_zero() {
    let error = decode("1 2").unwrap_err();
    assert_eq!(error.position(), 0);
    assert_eq!(error.message(), "trailing characters at line 1 column 3");
}

#[test]
fn duplicate_keys_keep_the_last() {
    assert_eq!(
        decode("{\"a\":1,\"a\":2}"),
        Ok(HostValue::Mapping(vec![(key("a"), HostValue::Unsigned(2))]))
    );
}

#[test]
fn special_floats_stand_for_whole_documents_only() {
    assert_eq!(decode("NaN"), Ok(float("NaN")));
    assert_eq!(decode("Infinity"), Ok(float("Infinity")));
    assert_eq!(decode("-Infinity"), Ok(float("-Infinity")));
    match decode("NaN extra") {
        Err(HyperJsonError::Syntax { .. }) => {}
        other => panic!("unexpected outcome {:?}", other),
    }
    match decode("[NaN]") {
        Err(HyperJsonError::Syntax { .. }) => {}
        other => panic!("unexpected outcome {:?}", other),
    }
    match decode(" NaN") {
        Err(HyperJsonError::Syntax { .. }) => {}
        other => panic!("unexpected outcome {:?}", other),
    }
}

#[test]
fn special_floats_parse_as_floats() {
    let parse = |v: HostValue| match v {
        HostValue::Float(text) => match text.as_str() {
            "NaN" => f64::NAN,
            "Infinity" => f64::INFINITY,
            "-Infinity" => f64::NEG_INFINITY,
            other => other.parse::<f64>().unwrap(),
        },
        other => panic!("not a float: {:?}", other),
    };
    assert!(parse(decode("NaN").unwrap()).is_nan());
    assert_eq!(parse(decode("Infinity").unwrap()), f64::INFINITY);
    assert_eq!(parse(decode("-Infinity").unwrap()), f64::NEG_INFINITY);
    assert_eq!(parse(decode("2.5").unwrap()), 2.5);
}

#[test]
fn integer_hook_overrides() {
    let ctx = HostContext::new();
    let hook: Option<Hook> = Some(doubling);
    assert_eq!(loads_impl(&ctx, &text_input("21"), &NO_HOOK, &hook), Ok(HostValue::Unsigned(42)));
    assert_eq!(loads_impl(&ctx, &text_input("21"), &NO_HOOK, &NO_HOOK), Ok(HostValue::Unsigned(21)));
}

#[test]
fn hooks_get_the_literal_text() {
    let ctx = HostContext::new();
    let hook: Option<Hook> = Some(tagging);
    assert_eq!(
        loads_impl(&ctx, &text_input("[1, -0, 1.50, 12345678901234567890123]"), &hook, &hook),
        Ok(HostValue::List(vec![
            HostValue::Text("1".to_string()),
            HostValue::Text("-0".to_string()),
            HostValue::Text("1.50".to_string()),
            HostValue::Text("12345678901234567890123".to_string()),
        ]))
    );
    assert_eq!(
        loads_impl(&ctx, &text_input("[1, 2.5]"), &hook, &NO_HOOK),
        Ok(HostValue::List(vec![HostValue::Unsigned(1), HostValue::Text("2.5".to_string())]))
    );
    assert_eq!(
        loads_impl(&ctx, &text_input("[1, 2.5]"), &NO_HOOK, &hook),
        Ok(HostValue::List(vec![HostValue::Text("1".to_string()), float("2.5")]))
    );
}

#[test]
fn hook_failure_is_handed_on() {
    let ctx = HostContext::new();
    let hook: Option<Hook> = Some(failing);
    assert_eq!(
        loads_impl(&ctx, &text_input("{\"a\": [1]}"), &NO_HOOK, &hook),
        Err(HyperJsonError::HostRuntimeFailure { message: "cannot build 1".to_string() })
    );
    assert_eq!(
        loads_impl(&ctx, &text_input("{\"a\": [1.5]}"), &NO_HOOK, &hook),
        Ok(HostValue::Mapping(vec![(key("a"), HostValue::List(vec![float("1.5")]))]))
    );
}

#[test]
fn syntax_errors_carry_a_place() {
    assert_eq!(
        decode("[1,\n +]"),
        Err(HyperJsonError::Syntax {
            message: "expected value at line 2 column 2".to_string(),
            line: 2,
            column: 2,
        })
    );
}

#[test]
fn unfinished_document_is_a_syntax_error() {
    assert_eq!(
        decode("[1,"),
        Err(HyperJsonError::Syntax {
            message: "EOF while parsing a value at line 1 column 3".to_string(),
            line: 1,
            column: 3,
        })
    );
    assert_eq!(
        decode("\"abc"),
        Err(HyperJsonError::Syntax {
            message: "EOF while parsing a string at line 1 column 4".to_string(),
            line: 1,
            column: 4,
        })
    );
    assert_eq!(
        decode("tru"),
        Err(HyperJsonError::Syntax {
            message: "EOF while parsing a value at line 1 column 3".to_string(),
            line: 1,
            column: 3,
        })
    );
    assert_eq!(
        decode(""),
        Err(HyperJsonError::Syntax {
            message: "EOF while parsing a value at line 1 column 0".to_string(),
            line: 1,
            column: 0,
        })
    );
    let ctx = HostContext::new();
    match loads(&ctx, &bytes_input(b"{\"a\": "), &NO_HOOK, &NO_HOOK) {
        Err(HyperJsonError::Syntax { .. }) => {}
        other => panic!("unexpected outcome {:?}", other),
    }
}

#[test]
fn a_number_under_the_reserved_key_is_no_mapping() {
    assert_eq!(
        decode("{\"$serde_json::private::Number\": \"12\"}"),
        Ok(HostValue::Unsigned(12))
    );
    match decode("{\"$serde_json::private::Number\": 12}") {
        Err(HyperJsonError::InvalidValue { .. }) => {}
        other => panic!("unexpected outcome {:?}", other),
    }
}

#[test]
fn decodes_bytes_when_not_text() {
    let ctx = HostContext::new();
    assert_eq!(
        loads(&ctx, &bytes_input(b"[true, null]"), &NO_HOOK, &NO_HOOK),
        Ok(HostValue::List(vec![HostValue::Bool(true), HostValue::Null]))
    );
    match loads(&ctx, &bytes_input(b"NaN"), &NO_HOOK, &NO_HOOK) {
        Err(HyperJsonError::Syntax { .. }) => {}
        other => panic!("unexpected outcome {:?}", other),
    }
    match loads(&ctx, &bytes_input(b"\"\xff\""), &NO_HOOK, &NO_HOOK) {
        Err(HyperJsonError::Syntax { .. }) => {}
        other => panic!("unexpected outcome {:?}", other),
    }
    let both = DecodeInput { text: Some("1".to_string()), bytes: Some(b"2".to_vec()) };
    assert_eq!(loads(&ctx, &both, &NO_HOOK, &NO_HOOK), Ok(HostValue::Unsigned(1)));
}

#[test]
fn input_that_is_neither_text_nor_bytes_is_refused() {
    let ctx = HostContext::new();
    let neither = DecodeInput { text: None, bytes: None };
    assert_eq!(
        loads(&ctx, &neither, &NO_HOOK, &NO_HOOK),
        Err(HyperJsonError::UnsupportedInputType)
    );
}

#[test]
fn objects_come_out_in_key_order() {
    assert_eq!(
        decode("{\"b\": [1, {\"z\": null, \"y\": 2.0}], \"a\": \"x\"}"),
        Ok(HostValue::Mapping(vec![
            (key("a"), HostValue::Text("x".to_string())),
            (
                key("b"),
                HostValue::List(vec![
                    HostValue::Unsigned(1),
                    HostValue::Mapping(vec![(key("y"), float("2.0")), (key("z"), HostValue::Null)]),
                ])
            ),
        ]))
    );
}

#[test]
fn decoding_twice_gives_equal_values() {
    let document = "{\"k\": [1, -2, 3.5, \"s\", null, true]}";
    assert_eq!(decode(document), decode(document));
}
