use hyperjson::decode::put_entry;
use hyperjson::{
    adopt, convert_special_floats, decode_document, reading_error, recover, HostContext, HostKey,
    HostValue, HyperJsonError, HyperJsonValue, ParseFailure,
};
use serde_json::Value;

type Hook = fn(String) -> Result<HostValue, String>;

const NO_HOOK: Option<Hook> = None;

fn number(literal: &str) -> Value {
    Value::Number(literal.parse::<serde_json::Number>().unwrap())
}

fn object(members: Vec<(&str, Value)>) -> Value {
    let mut map = serde_json::Map::new();
    for (key, value) in members {
        map.insert(key.to_string(), value);
    }
    Value::Object(map)
}

fn failure(syntax: bool) -> ParseFailure {
    ParseFailure { syntax, eof: false, message: "what went wrong".to_string(), line: 3, column: 9 }
}

fn early_end() -> ParseFailure {
    ParseFailure { syntax: false, eof: true, message: "ended".to_string(), line: 1, column: 2 }
}

fn marking_int(literal: String) -> Result<HostValue, String> {
    Ok(HostValue::Text(format!("int:{}", literal)))
}

fn marking_float(literal: String) -> Result<HostValue, String> {
    Ok(HostValue::Text(format!("float:{}", literal)))
}

fn refusing_odd(literal: String) -> Result<HostValue, String> {
    match literal.parse::<u64>() {
        Ok(n) if n % 2 == 0 => Ok(HostValue::Unsigned(n)),
        _ => Err(format!("odd: {}", literal)),
    }
}

#[test]
fn builds_each_kind_of_node() {
    let ctx = HostContext::new();
    let seed = HyperJsonValue::new(&ctx, &NO_HOOK, &NO_HOOK);
    assert_eq!(seed.deserialize(&Value::Null), Ok(HostValue::Null));
    assert_eq!(seed.deserialize(&Value::Bool(true)), Ok(HostValue::Bool(true)));
    assert_eq!(seed.deserialize(&number("12")), Ok(HostValue::Unsigned(12)));
    assert_eq!(seed.deserialize(&number("-12")), Ok(HostValue::Signed(-12)));
    assert_eq!(seed.deserialize(&number("1.2")), Ok(HostValue::Float("1.2".to_string())));
    assert_eq!(
        seed.deserialize(&number("36893488147419103232")),
        Ok(HostValue::Float("36893488147419103232".to_string()))
    );
    assert_eq!(
        seed.deserialize(&Value::String("t".to_string())),
        Ok(HostValue::Text("t".to_string()))
    );
    let tree = Value::Array(vec![
        object(vec![("b", Value::Array(vec![])), ("a", number("1"))]),
        Value::Null,
    ]);
    assert_eq!(
        seed.deserialize(&tree),
        Ok(HostValue::List(vec![
            HostValue::Mapping(vec![
                (HostKey::Text("a".to_string()), HostValue::Unsigned(1)),
                (HostKey::Text("b".to_string()), HostValue::List(vec![])),
            ]),
            HostValue::Null,
        ]))
    );
}

#[test]
fn visits_follow_the_hooks() {
    let ctx = HostContext::new();
    let int_hook: Option<Hook> = Some(marking_int);
    let float_hook: Option<Hook> = Some(marking_float);
    let plain = HyperJsonValue::new(&ctx, &NO_HOOK, &NO_HOOK);
    let hooked = HyperJsonValue::new(&ctx, &float_hook, &int_hook);
    assert_eq!(plain.visit_bool(false), HostValue::Bool(false));
    assert_eq!(plain.visit_unit(), HostValue::Null);
    assert_eq!(plain.visit_str("7"), HostValue::Text("7".to_string()));
    assert_eq!(plain.visit_u64(7, "7"), Ok(HostValue::Unsigned(7)));
    assert_eq!(plain.visit_i64(-7, "-7"), Ok(HostValue::Signed(-7)));
    assert_eq!(plain.visit_f64("7.5"), Ok(HostValue::Float("7.5".to_string())));
    assert_eq!(hooked.visit_u64(7, "7"), Ok(HostValue::Text("int:7".to_string())));
    assert_eq!(hooked.visit_i64(-7, "-7"), Ok(HostValue::Text("int:-7".to_string())));
    assert_eq!(hooked.visit_f64("7.5"), Ok(HostValue::Text("float:7.5".to_string())));
    assert_eq!(
        hooked.visit_number("36893488147419103232"),
        Ok(HostValue::Text("int:36893488147419103232".to_string()))
    );
    assert_eq!(hooked.visit_number("1e+2"), Ok(HostValue::Text("float:1e+2".to_string())));
    let float_only = HyperJsonValue::new(&ctx, &float_hook, &NO_HOOK);
    assert_eq!(
        float_only.visit_number("36893488147419103232"),
        Ok(HostValue::Text("float:36893488147419103232".to_string()))
    );
    assert_eq!(float_only.visit_number("7"), Ok(HostValue::Unsigned(7)));
    assert_eq!(
        hooked.parse_primitive("7", &marking_float),
        Ok(HostValue::Text("float:7".to_string()))
    );
}

#[test]
fn the_first_failing_hook_is_reported() {
    let ctx = HostContext::new();
    let int_hook: Option<Hook> = Some(refusing_odd);
    let seed = HyperJsonValue::new(&ctx, &NO_HOOK, &int_hook);
    let tree = Value::Array(vec![number("2"), object(vec![("k", number("3"))]), number("5")]);
    assert_eq!(
        seed.deserialize(&tree),
        Err(HyperJsonError::HostRuntimeFailure { message: "odd: 3".to_string() })
    );
    assert_eq!(
        seed.visit_seq(&vec![number("4"), number("2.5")]),
        Ok(HostValue::List(vec![HostValue::Unsigned(4), HostValue::Float("2.5".to_string())]))
    );
    let key = "a".to_string();
    assert_eq!(
        seed.visit_map(&vec![(&key, &number("1"))]),
        Err(HyperJsonError::HostRuntimeFailure { message: "odd: 1".to_string() })
    );
    assert_eq!(
        seed.visit_map(&vec![(&key, &number("6"))]),
        Ok(HostValue::Mapping(vec![(HostKey::Text("a".to_string()), HostValue::Unsigned(6))]))
    );
}

#[test]
fn a_later_member_overwrites_an_earlier_one() {
    let ctx = HostContext::new();
    let seed = HyperJsonValue::new(&ctx, &NO_HOOK, &NO_HOOK);
    let (a, b, c) = ("a".to_string(), "b".to_string(), "c".to_string());
    let (one, two, three, four) = (number("1"), number("2"), number("3"), number("4"));
    assert_eq!(
        seed.visit_map(&vec![(&a, &one), (&a, &two)]),
        Ok(HostValue::Mapping(vec![(HostKey::Text("a".to_string()), HostValue::Unsigned(2))]))
    );
    assert_eq!(
        seed.visit_map(&vec![(&c, &one), (&a, &two), (&c, &three), (&b, &four), (&a, &one)]),
        Ok(HostValue::Mapping(vec![
            (HostKey::Text("a".to_string()), HostValue::Unsigned(1)),
            (HostKey::Text("b".to_string()), HostValue::Unsigned(4)),
            (HostKey::Text("c".to_string()), HostValue::Unsigned(3)),
        ]))
    );
    assert_eq!(seed.visit_map(&vec![]), Ok(HostValue::Mapping(vec![])));
}

#[test]
fn a_hook_sees_every_member_in_document_order() {
    let ctx = HostContext::new();
    let int_hook: Option<Hook> = Some(refusing_odd);
    let seed = HyperJsonValue::new(&ctx, &NO_HOOK, &int_hook);
    let (a, b) = ("a".to_string(), "b".to_string());
    let (three, two, five) = (number("3"), number("2"), number("5"));
    assert_eq!(
        seed.visit_map(&vec![(&b, &three), (&b, &two), (&a, &five)]),
        Err(HyperJsonError::HostRuntimeFailure { message: "odd: 3".to_string() })
    );
}

#[test]
fn entries_are_put_in_key_order() {
    let mut entries: Vec<(HostKey, HostValue)> = Vec::new();
    for (key, value) in [("m", 1), ("a", 2), ("z", 3), ("m", 4), ("", 5), ("é", 6), ("ab", 7)] {
        put_entry(&mut entries, key.to_string(), HostValue::Unsigned(value));
    }
    let expected: Vec<(HostKey, HostValue)> = [("", 5), ("a", 2), ("ab", 7), ("m", 4), ("z", 3), ("é", 6)]
        .iter()
        .map(|(key, value)| (HostKey::Text(key.to_string()), HostValue::Unsigned(*value)))
        .collect();
    assert_eq!(entries, expected);
}

#[test]
fn a_hook_answer_is_used_as_it_stands() {
    let odd = HostValue::Other { handle: 9, repr: None, kind_name: "Decimal".to_string() };
    assert_eq!(adopt(Ok(odd.clone())), Ok(odd));
    assert_eq!(
        adopt(Err("no".to_string())),
        Err(HyperJsonError::HostRuntimeFailure { message: "no".to_string() })
    );
}

#[test]
fn what_follows_the_value_is_reported_after_the_hooks() {
    let ctx = HostContext::new();
    let tree = number("1");
    assert_eq!(decode_document(&ctx, &tree, None, &NO_HOOK, &NO_HOOK), Ok(HostValue::Unsigned(1)));
    assert_eq!(
        decode_document(&ctx, &tree, Some(failure(true)), &NO_HOOK, &NO_HOOK),
        Err(HyperJsonError::TrailingData { message: "what went wrong".to_string() })
    );
    let int_hook: Option<Hook> = Some(refusing_odd);
    assert_eq!(
        decode_document(&ctx, &tree, Some(failure(true)), &NO_HOOK, &int_hook),
        Err(HyperJsonError::HostRuntimeFailure { message: "odd: 1".to_string() })
    );
}

#[test]
fn a_failed_reading_is_recovered_for_special_floats_only() {
    let ctx = HostContext::new();
    for name in ["NaN", "Infinity", "-Infinity"] {
        let text = name.to_string();
        assert_eq!(convert_special_floats(&ctx, name), Some(HostValue::Float(text.clone())));
        assert_eq!(recover(&ctx, Some(name), failure(true)), Ok(HostValue::Float(text.clone())));
        assert_eq!(recover(&ctx, Some(name), failure(false)), Ok(HostValue::Float(text.clone())));
    }
    for other in ["nan", "NaN ", " NaN", "+Infinity", "Inf", "-infinity", "", "NaNNaN"] {
        assert_eq!(convert_special_floats(&ctx, other), None);
        assert_eq!(
            recover(&ctx, Some(other), failure(true)),
            Err(HyperJsonError::Syntax {
                message: "what went wrong".to_string(),
                line: 3,
                column: 9,
            })
        );
    }
    assert_eq!(
        recover(&ctx, None, failure(false)),
        Err(HyperJsonError::InvalidValue { message: "what went wrong".to_string() })
    );
}

#[test]
fn a_reading_error_is_classified_by_its_cause() {
    assert_eq!(
        reading_error(failure(true)),
        Err::<(), _>(HyperJsonError::Syntax {
            message: "what went wrong".to_string(),
            line: 3,
            column: 9,
        })
        .unwrap_err()
    );
    assert_eq!(
        reading_error(failure(false)),
        HyperJsonError::InvalidValue { message: "what went wrong".to_string() }
    );
    assert_eq!(
        reading_error(early_end()),
        HyperJsonError::Syntax { message: "ended".to_string(), line: 1, column: 2 }
    );
}
