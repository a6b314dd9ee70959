//! The ways in which decoding and encoding fail.

use vstd::prelude::*;
use vstd::string::*;

verus! {

/// Why a call of the codec failed. A call either succeeds as a whole or fails
/// with exactly one of these.
#[derive(Debug, PartialEq)]
pub enum HyperJsonError {
    /// The document is not well-formed: it has a character where none such
    /// may stand, or ends before its value does. `line` and `column` count
    /// from one and are zero where the place is not known.
    Syntax { message: String, line: usize, column: usize },
    /// A well-formed value is followed by something other than whitespace.
    TrailingData { message: String },
    /// The document could not be read for a reason other than its syntax:
    /// it is well-formed, and yet no value could be made of it.
    InvalidValue { message: String },
    /// The input to decode is neither text nor bytes.
    UnsupportedInputType,
    /// A value to encode has no shape on the wire. `repr` is the host's
    /// printable form of the value, where it has one.
    NonSerializableValue { repr: Option<String>, kind_name: String },
    /// A floating-point number to encode is not finite: the text that writes
    /// it is no JSON number.
    NonFiniteFloat { text: String },
    /// A mapping key to encode is neither null nor a boolean and has no text
    /// coercion.
    KeyNotStringCoercible,
    /// A call into the host runtime failed; the host's own account of the
    /// failure is handed on unchanged.
    HostRuntimeFailure { message: String },
}

/// Mathematical model of a [`HyperJsonError`].
pub enum ErrorModel {
    Syntax { message: Seq<char>, line: nat, column: nat },
    TrailingData { message: Seq<char> },
    InvalidValue { message: Seq<char> },
    UnsupportedInputType,
    NonSerializableValue { repr: Option<Seq<char>>, kind_name: Seq<char> },
    NonFiniteFloat { text: Seq<char> },
    KeyNotStringCoercible,
    HostRuntimeFailure { message: Seq<char> },
}

impl View for HyperJsonError {
    type V = ErrorModel;

    open spec fn view(&self) -> ErrorModel {
        match self {
            HyperJsonError::Syntax { message, line, column } => ErrorModel::Syntax {
                message: message@,
                line: *line as nat,
                column: *column as nat,
            },
            HyperJsonError::TrailingData { message } => ErrorModel::TrailingData {
                message: message@,
            },
            HyperJsonError::InvalidValue { message } => ErrorModel::InvalidValue {
                message: message@,
            },
            HyperJsonError::UnsupportedInputType => ErrorModel::UnsupportedInputType,
            HyperJsonError::NonSerializableValue { repr, kind_name } => {
                ErrorModel::NonSerializableValue {
                    repr: match repr {
                        Some(s) => Some(s@),
                        None => None,
                    },
                    kind_name: kind_name@,
                }
            },
            HyperJsonError::NonFiniteFloat { text } => ErrorModel::NonFiniteFloat { text: text@ },
            HyperJsonError::KeyNotStringCoercible => ErrorModel::KeyNotStringCoercible,
            HyperJsonError::HostRuntimeFailure { message } => ErrorModel::HostRuntimeFailure {
                message: message@,
            },
        }
    }
}

/// The family of host exception under which an error is raised.
#[derive(Clone, Copy, Debug, PartialEq, Eq, Structural)]
pub enum ExceptionKind {
    /// The host's decode error, which carries the document and a position.
    Decode,
    /// The host's error for a value that is not acceptable.
    Value,
    /// The host's error for a value of the wrong type.
    Type,
}

/// The exception family of each error.
pub open spec fn exception_kind_of(error: ErrorModel) -> ExceptionKind {
    match error {
        ErrorModel::Syntax { .. } => ExceptionKind::Decode,
        ErrorModel::TrailingData { .. } => ExceptionKind::Decode,
        ErrorModel::InvalidValue { .. } => ExceptionKind::Value,
        ErrorModel::HostRuntimeFailure { .. } => ExceptionKind::Value,
        ErrorModel::UnsupportedInputType => ExceptionKind::Type,
        ErrorModel::NonSerializableValue { .. } => ExceptionKind::Type,
        ErrorModel::NonFiniteFloat { .. } => ExceptionKind::Type,
        ErrorModel::KeyNotStringCoercible => ExceptionKind::Type,
    }
}

/// The message of each error.
pub open spec fn message_of(error: ErrorModel) -> Seq<char> {
    match error {
        ErrorModel::Syntax { message, .. } => message,
        ErrorModel::TrailingData { message } => message,
        ErrorModel::InvalidValue { message } => message,
        ErrorModel::UnsupportedInputType => "the JSON document must be text or bytes"@,
        ErrorModel::NonSerializableValue { repr, kind_name } => match repr {
            Some(text) => "Value is not JSON serializable: "@ + text,
            None => "Type is not JSON serializable: "@ + kind_name,
        },
        ErrorModel::NonFiniteFloat { text } => "Invalid float: "@ + text,
        ErrorModel::KeyNotStringCoercible => "Dictionary key is not a string"@,
        ErrorModel::HostRuntimeFailure { message } => "Host runtime exception: "@ + message,
    }
}

impl HyperJsonError {
    /// The family of host exception under which this error is raised.
    pub fn exception_kind(&self) -> (kind: ExceptionKind)
        ensures
            kind == exception_kind_of(self@),
    {
        match self {
            HyperJsonError::Syntax { .. } => ExceptionKind::Decode,
            HyperJsonError::TrailingData { .. } => ExceptionKind::Decode,
            HyperJsonError::InvalidValue { .. } => ExceptionKind::Value,
            HyperJsonError::HostRuntimeFailure { .. } => ExceptionKind::Value,
            HyperJsonError::UnsupportedInputType => ExceptionKind::Type,
            HyperJsonError::NonSerializableValue { .. } => ExceptionKind::Type,
            HyperJsonError::NonFiniteFloat { .. } => ExceptionKind::Type,
            HyperJsonError::KeyNotStringCoercible => ExceptionKind::Type,
        }
    }

    /// The position in the document that a decode error reports. It is zero
    /// for every error: callers that parse error messages rely on it, so the
    /// place of a syntax error is told by `line` and `column` only.
    pub fn position(&self) -> (at: usize)
        ensures
            at == 0,
    {
        0
    }

    /// The message of this error, as the host shows it.
    pub fn message(&self) -> (text: String)
        ensures
            text@ == message_of(self@),
    {
        match self {
            HyperJsonError::Syntax { message, .. } => message.clone(),
            HyperJsonError::TrailingData { message } => message.clone(),
            HyperJsonError::InvalidValue { message } => message.clone(),
            HyperJsonError::UnsupportedInputType => String::from_str(
                "the JSON document must be text or bytes",
            ),
            HyperJsonError::NonSerializableValue { repr, kind_name } => match repr {
                Some(text) => String::from_str("Value is not JSON serializable: ").concat(
                    text.as_str(),
                ),
                None => String::from_str("Type is not JSON serializable: ").concat(
                    kind_name.as_str(),
                ),
            },
            HyperJsonError::NonFiniteFloat { text } => String::from_str("Invalid float: ").concat(
                text.as_str(),
            ),
            HyperJsonError::KeyNotStringCoercible => String::from_str(
                "Dictionary key is not a string",
            ),
            HyperJsonError::HostRuntimeFailure { message } => String::from_str(
                "Host runtime exception: ",
            ).concat(message.as_str()),
        }
    }
}

} // verus!
