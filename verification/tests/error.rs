use hyperjson::{ExceptionKind, HyperJsonError};

#[test]
fn each_error_has_its_message() {
    let syntax =
        HyperJsonError::Syntax { message: "expected value".to_string(), line: 1, column: 1 };
    assert_eq!(syntax.message(), "expected value");
    let trailing = HyperJsonError::TrailingData { message: "trailing characters".to_string() };
    assert_eq!(trailing.message(), "trailing characters");
    let value = HyperJsonError::InvalidValue { message: "EOF".to_string() };
    assert_eq!(value.message(), "EOF");
    assert_eq!(
        HyperJsonError::UnsupportedInputType.message(),
        "the JSON document must be text or bytes"
    );
    let shapeless =
        HyperJsonError::NonSerializableValue { repr: Some("{1}".to_string()), kind_name: "set".to_string() };
    assert_eq!(shapeless.message(), "Value is not JSON serializable: {1}");
    let shapeless = HyperJsonError::NonSerializableValue { repr: None, kind_name: "set".to_string() };
    assert_eq!(shapeless.message(), "Type is not JSON serializable: set");
    let float = HyperJsonError::NonFiniteFloat { text: "NaN".to_string() };
    assert_eq!(float.message(), "Invalid float: NaN");
    assert_eq!(
        HyperJsonError::KeyNotStringCoercible.message(),
        "Dictionary key is not a string"
    );
    let host = HyperJsonError::HostRuntimeFailure { message: "boom".to_string() };
    assert_eq!(host.message(), "Host runtime exception: boom");
}

#[test]
fn each_error_has_its_exception_family() {
    let syntax = HyperJsonError::Syntax { message: String::new(), line: 0, column: 0 };
    assert_eq!(syntax.exception_kind(), ExceptionKind::Decode);
    let trailing = HyperJsonError::TrailingData { message: String::new() };
    assert_eq!(trailing.exception_kind(), ExceptionKind::Decode);
    let value = HyperJsonError::InvalidValue { message: String::new() };
    assert_eq!(value.exception_kind(), ExceptionKind::Value);
    let host = HyperJsonError::HostRuntimeFailure { message: String::new() };
    assert_eq!(host.exception_kind(), ExceptionKind::Value);
    assert_eq!(HyperJsonError::UnsupportedInputType.exception_kind(), ExceptionKind::Type);
    let shapeless = HyperJsonError::NonSerializableValue { repr: None, kind_name: String::new() };
    assert_eq!(shapeless.exception_kind(), ExceptionKind::Type);
    let float = HyperJsonError::NonFiniteFloat { text: String::new() };
    assert_eq!(float.exception_kind(), ExceptionKind::Type);
    assert_eq!(HyperJsonError::KeyNotStringCoercible.exception_kind(), ExceptionKind::Type);
}

#[test]
fn the_reported_position_is_zero() {
    let syntax = HyperJsonError::Syntax { message: String::new(), line: 4, column: 2 };
    assert_eq!(syntax.position(), 0);
    assert_eq!(HyperJsonError::TrailingData { message: String::new() }.position(), 0);
}
