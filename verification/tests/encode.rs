use hyperjson::{
    coerce_key, dumps, loads_impl, DecodeInput, ExceptionKind, HostContext, HostKey, HostValue,
    HyperJsonError, SerializeHostValue,
};

type Hook = fn(String) -> Result<HostValue, String>;

const NO_HOOK: Option<Hook> = None;

fn text(s: &str) -> HostValue {
    HostValue::Text(s.to_string())
}

fn key(s: &str) -> HostKey {
    HostKey::Text(s.to_string())
}

fn float(s: &str) -> HostValue {
    HostValue::Float(s.to_string())
}

fn other(repr: Option<&str>, kind: &str) -> HostValue {
    HostValue::Other { handle: 7, repr: repr.map(|r| r.to_string()), kind_name: kind.to_string() }
}

fn encode(value: &HostValue) -> Result<String, HyperJsonError> {
    dumps(&HostContext::new(), value, None)
}

fn encode_sorted(value: &HostValue) -> Result<String, HyperJsonError> {
    dumps(&HostContext::new(), value, Some(true))
}

fn decode(s: &str) -> Result<HostValue, HyperJsonError> {
    let input = DecodeInput { text: Some(s.to_string()), bytes: None };
    loads_impl(&HostContext::new(), &input, &NO_HOOK, &NO_HOOK)
}

#[test]
fn encodes_scalars() {
    assert_eq!(encode(&HostValue::Null), Ok("null".to_string()));
    assert_eq!(encode(&HostValue::Bool(true)), Ok("true".to_string()));
    assert_eq!(encode(&HostValue::Bool(false)), Ok("false".to_string()));
    assert_eq!(encode(&HostValue::Unsigned(0)), Ok("0".to_string()));
    assert_eq!(encode(&HostValue::Unsigned(10)), Ok("10".to_string()));
    assert_eq!(encode(&HostValue::Unsigned(u64::MAX)), Ok("18446744073709551615".to_string()));
    assert_eq!(encode(&HostValue::Signed(i64::MIN)), Ok("-9223372036854775808".to_string()));
    assert_eq!(encode(&HostValue::Signed(-42)), Ok("-42".to_string()));
    assert_eq!(encode(&HostValue::Signed(7)), Ok("7".to_string()));
    assert_eq!(encode(&float("1.5")), Ok("1.5".to_string()));
    assert_eq!(encode(&float("-0.0")), Ok("-0.0".to_string()));
    assert_eq!(encode(&float("1e+300")), Ok("1e+300".to_string()));
}

#[test]
fn encodes_text_as_a_string_literal() {
    assert_eq!(encode(&text("")), Ok("\"\"".to_string()));
    assert_eq!(encode(&text("plain")), Ok("\"plain\"".to_string()));
    assert_eq!(encode(&text("a\"b\n")), Ok("\"a\\\"b\\n\"".to_string()));
    assert_eq!(encode(&text("back\\slash\t")), Ok("\"back\\\\slash\\t\"".to_string()));
    assert_eq!(encode(&text("\u{1}")), Ok("\"\\u0001\"".to_string()));
    assert_eq!(encode(&text("é€")), Ok("\"é€\"".to_string()));
}

#[test]
fn encodes_sequences() {
    assert_eq!(encode(&HostValue::List(vec![])), Ok("[]".to_string()));
    assert_eq!(encode(&HostValue::Tuple(vec![])), Ok("[]".to_string()));
    assert_eq!(
        encode(&HostValue::List(vec![HostValue::Unsigned(1), text("a"), HostValue::Null])),
        Ok("[1,\"a\",null]".to_string())
    );
    assert_eq!(
        encode(&HostValue::Tuple(vec![
            HostValue::Bool(true),
            HostValue::List(vec![HostValue::Signed(-1)]),
        ])),
        Ok("[true,[-1]]".to_string())
    );
}

#[test]
fn encodes_mappings_in_iteration_order() {
    assert_eq!(encode(&HostValue::Mapping(vec![])), Ok("{}".to_string()));
    let mapping = HostValue::Mapping(vec![
        (key("z"), HostValue::Unsigned(1)),
        (key("a"), HostValue::List(vec![HostValue::Null])),
        (key("m"), HostValue::Mapping(vec![(key("k"), float("2.5"))])),
    ]);
    assert_eq!(encode(&mapping), Ok("{\"z\":1,\"a\":[null],\"m\":{\"k\":2.5}}".to_string()));
}

#[test]
fn sort_keys_orders_members() {
    let ctx = HostContext::new();
    let mapping = HostValue::Mapping(vec![
        (key("b"), HostValue::Unsigned(1)),
        (key("a"), HostValue::Unsigned(2)),
    ]);
    assert_eq!(dumps(&ctx, &mapping, Some(true)), Ok("{\"a\":2,\"b\":1}".to_string()));
    assert_eq!(dumps(&ctx, &mapping, Some(false)), Ok("{\"b\":1,\"a\":2}".to_string()));
    assert_eq!(dumps(&ctx, &mapping, None), Ok("{\"b\":1,\"a\":2}".to_string()));
}

#[test]
fn sort_keys_reaches_every_mapping() {
    let value = HostValue::List(vec![HostValue::Mapping(vec![
        (
            key("b"),
            HostValue::Mapping(vec![(key("y"), HostValue::Null), (key("x"), HostValue::Null)]),
        ),
        (key("a"), HostValue::Unsigned(1)),
    ])]);
    assert_eq!(
        encode_sorted(&value),
        Ok("[{\"a\":1,\"b\":{\"x\":null,\"y\":null}}]".to_string())
    );
    assert_eq!(encode(&value), Ok("[{\"b\":{\"y\":null,\"x\":null},\"a\":1}]".to_string()));
}

#[test]
fn sort_keys_orders_by_bytes() {
    let mapping = HostValue::Mapping(vec![
        (key("é"), HostValue::Unsigned(4)),
        (key("b"), HostValue::Unsigned(3)),
        (key("ab"), HostValue::Unsigned(2)),
        (key("a"), HostValue::Unsigned(1)),
        (key("B"), HostValue::Unsigned(0)),
        (key(""), HostValue::Null),
    ]);
    assert_eq!(
        encode_sorted(&mapping),
        Ok("{\"\":null,\"B\":0,\"a\":1,\"ab\":2,\"b\":3,\"é\":4}".to_string())
    );
}

#[test]
fn sort_keys_keeps_the_last_of_equal_keys() {
    let mapping = HostValue::Mapping(vec![
        (key("null"), HostValue::Unsigned(1)),
        (key("a"), HostValue::Unsigned(2)),
        (HostKey::Null, HostValue::Unsigned(3)),
    ]);
    assert_eq!(encode_sorted(&mapping), Ok("{\"a\":2,\"null\":3}".to_string()));
    assert_eq!(encode(&mapping), Ok("{\"null\":1,\"a\":2,\"null\":3}".to_string()));
}

#[test]
fn keys_are_coerced_to_text() {
    let coerced = HostValue::Mapping(vec![
        (HostKey::Null, HostValue::Unsigned(1)),
        (HostKey::Bool(true), HostValue::Unsigned(2)),
        (HostKey::Bool(false), HostValue::Unsigned(3)),
    ]);
    let textual = HostValue::Mapping(vec![
        (key("null"), HostValue::Unsigned(1)),
        (key("true"), HostValue::Unsigned(2)),
        (key("false"), HostValue::Unsigned(3)),
    ]);
    assert_eq!(encode(&coerced), Ok("{\"null\":1,\"true\":2,\"false\":3}".to_string()));
    assert_eq!(encode(&coerced), encode(&textual));
    assert_eq!(encode_sorted(&coerced), encode_sorted(&textual));
    assert_eq!(encode_sorted(&coerced), Ok("{\"false\":3,\"null\":1,\"true\":2}".to_string()));
}

#[test]
fn key_without_text_is_refused() {
    let mapping = HostValue::Mapping(vec![
        (key("a"), HostValue::Unsigned(1)),
        (HostKey::Other, HostValue::Unsigned(2)),
    ]);
    assert_eq!(encode(&mapping), Err(HyperJsonError::KeyNotStringCoercible));
    assert_eq!(encode_sorted(&mapping), Err(HyperJsonError::KeyNotStringCoercible));
    assert_eq!(coerce_key(&HostKey::Other), Err(HyperJsonError::KeyNotStringCoercible));
    assert_eq!(coerce_key(&HostKey::Null), Ok("null".to_string()));
    assert_eq!(coerce_key(&HostKey::Bool(false)), Ok("false".to_string()));
    assert_eq!(coerce_key(&key("k")), Ok("k".to_string()));
}

#[test]
fn the_first_failure_in_writing_order_is_reported() {
    let mapping = HostValue::Mapping(vec![
        (key("a"), float("NaN")),
        (HostKey::Other, HostValue::Unsigned(2)),
    ]);
    assert_eq!(encode(&mapping), Err(HyperJsonError::NonFiniteFloat { text: "NaN".to_string() }));
    let mapping = HostValue::Mapping(vec![
        (HostKey::Other, float("NaN")),
        (key("a"), other(None, "object")),
    ]);
    assert_eq!(encode_sorted(&mapping), Err(HyperJsonError::KeyNotStringCoercible));
}

#[test]
fn rejects_non_finite_float() {
    for name in ["NaN", "Infinity", "-Infinity", "inf", "", "1.", ".5", "01", "1e", "+1", "0x10"] {
        assert_eq!(
            encode(&float(name)),
            Err(HyperJsonError::NonFiniteFloat { text: name.to_string() })
        );
    }
    for number in ["0", "-0", "10", "0.5", "-1.25e10", "1E-7", "3e+2", "123456789012345678901234"] {
        assert_eq!(encode(&float(number)), Ok(number.to_string()));
    }
}

#[test]
fn value_without_shape_is_refused() {
    let error = encode(&HostValue::List(vec![other(Some("<object at 0x1>"), "object")]));
    assert_eq!(
        error,
        Err(HyperJsonError::NonSerializableValue {
            repr: Some("<object at 0x1>".to_string()),
            kind_name: "object".to_string(),
        })
    );
    let error = error.unwrap_err();
    assert_eq!(error.message(), "Value is not JSON serializable: <object at 0x1>");
    assert_eq!(error.exception_kind(), ExceptionKind::Type);
    let error = encode(&other(None, "set")).unwrap_err();
    assert_eq!(error.message(), "Type is not JSON serializable: set");
}

#[test]
fn serializer_appends_to_what_is_there() {
    let ctx = HostContext::new();
    let value = HostValue::List(vec![HostValue::Unsigned(1)]);
    let mut out = String::from("x=");
    assert_eq!(SerializeHostValue::new(&ctx, &value, false).serialize(&mut out), Ok(()));
    assert_eq!(out, "x=[1]");
}

#[test]
fn a_failed_serializer_leaves_no_partial_result() {
    let ctx = HostContext::new();
    let value = HostValue::List(vec![
        HostValue::Unsigned(1),
        HostValue::Mapping(vec![(key("k"), float("NaN"))]),
    ]);
    let mut out = String::from("x=");
    assert_eq!(
        SerializeHostValue::new(&ctx, &value, false).serialize(&mut out),
        Err(HyperJsonError::NonFiniteFloat { text: "NaN".to_string() })
    );
    assert_eq!(out, "x=");
    assert_eq!(
        SerializeHostValue::new(&ctx, &value, true).serialize(&mut out),
        Err(HyperJsonError::NonFiniteFloat { text: "NaN".to_string() })
    );
    assert_eq!(out, "x=");
}

#[test]
fn round_trip_restores_the_value() {
    let value = HostValue::Mapping(vec![
        (key("a"), HostValue::List(vec![
            HostValue::Null,
            HostValue::Bool(true),
            HostValue::Bool(false),
            HostValue::Unsigned(0),
            HostValue::Unsigned(u64::MAX),
            HostValue::Signed(i64::MIN),
            HostValue::Signed(-1),
            float("1.5"),
            float("-2.5e-9"),
            text("line\nbreak \"quoted\" \u{7f} é"),
            HostValue::List(vec![]),
            HostValue::Mapping(vec![]),
        ])),
        (key("b"), HostValue::Mapping(vec![(key(""), text(""))])),
    ]);
    let document = encode(&value).unwrap();
    assert_eq!(decode(&document), Ok(value.clone()));
    let document = encode_sorted(&value).unwrap();
    assert_eq!(decode(&document), Ok(value));
}

#[test]
fn round_trip_allows_for_the_choice_of_integer_and_sequence() {
    let value = HostValue::Tuple(vec![HostValue::Signed(5), HostValue::Signed(-5)]);
    let document = encode(&value).unwrap();
    assert_eq!(
        decode(&document),
        Ok(HostValue::List(vec![HostValue::Unsigned(5), HostValue::Signed(-5)]))
    );
}

#[test]
fn decoded_values_are_encoded_alike_with_and_without_sorting() {
    let value = decode("{\"b\": {\"d\": 1, \"c\": [{\"z\": 0, \"y\": 0}]}, \"a\": 2}").unwrap();
    assert_eq!(encode(&value), encode_sorted(&value));
    assert_eq!(encode(&value), Ok("{\"a\":2,\"b\":{\"c\":[{\"y\":0,\"z\":0}],\"d\":1}}".to_string()));
}
