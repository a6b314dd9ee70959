//! A JSON codec between text on the wire and the values of a host runtime.
//!
//! The codec decodes a document into a value of a dynamically typed host and
//! encodes such a value as a document. The host's values reach the codec in
//! a closed form, [`HostValue`]; the host has a say in how numbers are made,
//! through two hooks, and in the order in which the keys of a mapping are
//! written.
//!
//! - [`host`]: the host's values, and how what the host reports of a value
//!   becomes one;
//! - [`decode`]: from a document to a host value ([`loads`]);
//! - [`encode`]: from a host value to a document ([`dumps`]);
//! - [`number`], [`order`]: decimal text, number literals, the order of keys
//!   and the canonical form of a mapping's members;
//! - [`tree`], [`trusted`]: a document as `serde_json` reads it, and the
//!   calls into `serde_json`;
//! - [`error`]: the ways in which a call fails;
//! - [`laws`]: what holds of the codec as a whole.
//!
//! A floating-point number is held by the text that writes it. The host
//! makes the number of the text, and the text of the number.

pub mod decode;
pub mod encode;
pub mod error;
pub mod host;
pub mod laws;
pub mod number;
pub mod order;
pub mod tree;
pub mod trusted;

pub use decode::{
    adopt, convert_special_floats, decode_document, loads, loads_impl, put_entry, reading_error,
    recover, DecodeInput, HyperJsonValue,
};
pub use encode::{coerce_key, dumps, SerializeHostValue};
pub use error::{ExceptionKind, HyperJsonError};
pub use host::{HostContext, HostKey, HostValue, KeyObservation, Observation};
pub use tree::Json;
pub use trusted::ParseFailure;
