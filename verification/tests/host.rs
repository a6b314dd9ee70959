use hyperjson::{dumps, HostContext, HostKey, HostValue, KeyObservation, Observation};

fn blank() -> Observation {
    Observation {
        mapping: None,
        list: None,
        tuple: None,
        text: None,
        boolean: None,
        float: None,
        unsigned: None,
        signed: None,
        is_null: false,
        handle: 3,
        repr: Some("<thing>".to_string()),
        kind_name: "thing".to_string(),
    }
}

#[test]
fn boolean_is_not_encoded_as_a_number() {
    let ctx = HostContext::new();
    let as_true = Observation { boolean: Some(true), unsigned: Some(1), signed: Some(1), ..blank() };
    let value = HostValue::classify(as_true);
    assert_eq!(value, HostValue::Bool(true));
    assert_eq!(dumps(&ctx, &value, None), Ok("true".to_string()));
    let as_false =
        Observation { boolean: Some(false), unsigned: Some(0), signed: Some(0), ..blank() };
    let value = HostValue::classify(as_false);
    assert_eq!(value, HostValue::Bool(false));
    assert_eq!(dumps(&ctx, &value, Some(true)), Ok("false".to_string()));
}

#[test]
fn shapes_are_tried_in_order() {
    let everything = Observation {
        mapping: Some(vec![]),
        list: Some(vec![HostValue::Null]),
        tuple: Some(vec![HostValue::Null, HostValue::Null]),
        text: Some("t".to_string()),
        boolean: Some(true),
        float: Some("1.0".to_string()),
        unsigned: Some(1),
        signed: Some(1),
        is_null: true,
        ..blank()
    };
    assert_eq!(HostValue::classify(everything), HostValue::Mapping(vec![]));
    let value = HostValue::classify(Observation {
        list: Some(vec![HostValue::Null]),
        tuple: Some(vec![]),
        text: Some("t".to_string()),
        ..blank()
    });
    assert_eq!(value, HostValue::List(vec![HostValue::Null]));
    let value = HostValue::classify(Observation {
        tuple: Some(vec![]),
        text: Some("t".to_string()),
        boolean: Some(true),
        ..blank()
    });
    assert_eq!(value, HostValue::Tuple(vec![]));
    let value = HostValue::classify(Observation {
        text: Some("t".to_string()),
        boolean: Some(true),
        float: Some("1.0".to_string()),
        ..blank()
    });
    assert_eq!(value, HostValue::Text("t".to_string()));
    let value = HostValue::classify(Observation {
        float: Some("1.0".to_string()),
        unsigned: Some(1),
        signed: Some(1),
        ..blank()
    });
    assert_eq!(value, HostValue::Float("1.0".to_string()));
    let value =
        HostValue::classify(Observation { unsigned: Some(1), signed: Some(1), ..blank() });
    assert_eq!(value, HostValue::Unsigned(1));
    let value = HostValue::classify(Observation { signed: Some(-1), is_null: true, ..blank() });
    assert_eq!(value, HostValue::Signed(-1));
    let value = HostValue::classify(Observation { is_null: true, ..blank() });
    assert_eq!(value, HostValue::Null);
    assert_eq!(
        HostValue::classify(blank()),
        HostValue::Other {
            handle: 3,
            repr: Some("<thing>".to_string()),
            kind_name: "thing".to_string(),
        }
    );
}

#[test]
fn key_probes_are_tried_in_order() {
    let null = KeyObservation { is_null: true, boolean: None, text: Some("None".to_string()) };
    assert_eq!(HostKey::classify(null), HostKey::Null);
    let boolean =
        KeyObservation { is_null: false, boolean: Some(true), text: Some("True".to_string()) };
    assert_eq!(HostKey::classify(boolean), HostKey::Bool(true));
    let number = KeyObservation { is_null: false, boolean: None, text: Some("5".to_string()) };
    assert_eq!(HostKey::classify(number), HostKey::Text("5".to_string()));
    let nothing = KeyObservation { is_null: false, boolean: None, text: None };
    assert_eq!(HostKey::classify(nothing), HostKey::Other);
}

#[test]
fn copies_are_equal() {
    let value = HostValue::Mapping(vec![
        (HostKey::Null, HostValue::List(vec![HostValue::Float("1.5".to_string())])),
        (HostKey::Bool(true), HostValue::Tuple(vec![HostValue::Signed(-3)])),
        (
            HostKey::Text("k".to_string()),
            HostValue::Other { handle: 1, repr: None, kind_name: "set".to_string() },
        ),
        (HostKey::Other, HostValue::Text("t".to_string())),
    ]);
    assert_eq!(value.clone(), value);
}
