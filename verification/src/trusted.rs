//! The calls into `serde_json` on which the codec rests. Nothing in this file
//! is proved: each contract states what the called function is taken to do.
//!
//! `serde_json` is built with `arbitrary_precision`, so that a number keeps
//! the text of its literal. With it, `serde_json` writes the exponent of a
//! literal with `e` and a sign whatever the document has, and takes an
//! object whose first key is its own name for a number for that number. It
//! is built without `preserve_order`, so that its map is a map in key order.

use crate::order::put;
use crate::tree::Json;
use vstd::prelude::*;

verus! {

#[verifier::external_type_specification]
#[verifier::external_body]
pub struct ExValue(serde_json::Value);

#[verifier::external_type_specification]
#[verifier::external_body]
pub struct ExError(serde_json::Error);

#[verifier::external_type_specification]
#[verifier::external_body]
#[verifier::reject_recursive_types(K)]
#[verifier::reject_recursive_types(V)]
pub struct ExMap<K, V>(serde_json::Map<K, V>);

/// What `serde_json` reads from the front of a text: the first value and,
/// where something other than whitespace follows it, the error that reports
/// so; or the error that kept it from reading a value.
pub uninterp spec fn text_reading(text: Seq<char>) -> Result<
    (serde_json::Value, Option<serde_json::Error>),
    serde_json::Error,
>;

/// What `serde_json` reads from the front of a run of bytes.
pub uninterp spec fn bytes_reading(bytes: Seq<u8>) -> Result<
    (serde_json::Value, Option<serde_json::Error>),
    serde_json::Error,
>;

/// The document that a `serde_json::Value` holds.
pub uninterp spec fn tree_of(value: serde_json::Value) -> Json;

/// What a `serde_json::Error` reports.
pub uninterp spec fn failure_of(error: serde_json::Error) -> ParseFailure;

/// The JSON string literal that `serde_json` writes for a text: the text
/// between double quotes, escaped where the format asks for it.
pub uninterp spec fn string_literal(text: Seq<char>) -> Seq<char>;

/// The members that a `serde_json::Map` holds, in the order in which it
/// hands them out: each key with the text that is its value, which is empty
/// where the value is no string.
pub uninterp spec fn members_of(map: serde_json::Map<String, serde_json::Value>) -> Seq<
    (Seq<char>, Seq<char>),
>;

/// The members that a run of pairs of texts stands for.
pub open spec fn member_models(pairs: Seq<(String, String)>) -> Seq<(Seq<char>, Seq<char>)> {
    Seq::new(pairs.len(), |i: int| (pairs[i].0@, pairs[i].1@))
}

/// Whether a text is written as it is: it has no double quote, no backslash
/// and no control character, which are the characters that are escaped.
pub open spec fn needs_no_escape(text: Seq<char>) -> bool {
    forall|i: int|
        0 <= i < text.len() ==> {
            let c = #[trigger] text[i];
            c != '"' && c != '\\' && c >= ' '
        }
}

/// A text between double quotes.
pub open spec fn quoted(text: Seq<char>) -> Seq<char> {
    seq!['"'] + text + seq!['"']
}

/// The string literal that is written for a text: the text between double
/// quotes where none of its characters is escaped, otherwise what
/// `serde_json` makes of it.
pub open spec fn written_string(text: Seq<char>) -> Seq<char> {
    if needs_no_escape(text) {
        quoted(text)
    } else {
        string_literal(text)
    }
}

/// The documents that a run of values holds, one for one.
pub open spec fn trees_of(items: Seq<serde_json::Value>) -> Seq<Json> {
    Seq::new(items.len(), |i: int| tree_of(items[i]))
}

/// The members that a run of keys and values stands for, one for one.
pub open spec fn member_trees(members: Seq<(&String, &serde_json::Value)>) -> Seq<
    (Seq<char>, Json),
> {
    Seq::new(members.len(), |i: int| (members[i].0@, tree_of(*members[i].1)))
}

/// What a `serde_json::Error` reports, as plain values.
#[derive(Debug, PartialEq)]
pub struct ParseFailure {
    /// The input is not syntactically valid JSON.
    pub syntax: bool,
    /// The input ends before the value does.
    pub eof: bool,
    /// The error's message.
    pub message: String,
    /// One-based line of the error, zero where unknown.
    pub line: usize,
    /// One-based column of the error, zero where unknown.
    pub column: usize,
}

/// `serde_json::Deserializer::from_str`, one `Value` deserialized from it, and
/// `Deserializer::end`. The result depends on the text alone.
#[verifier::external_body]
pub(crate) fn read_text(text: &str) -> (r: Result<
    (serde_json::Value, Option<serde_json::Error>),
    serde_json::Error,
>)
    ensures
        r == text_reading(text@),
{
    let mut reader = serde_json::Deserializer::from_str(text);
    let value: serde_json::Value = serde::Deserialize::deserialize(&mut reader)?;
    Ok((value, reader.end().err()))
}

/// `serde_json::Deserializer::from_slice`, one `Value` deserialized from it,
/// and `Deserializer::end`. The result depends on the bytes alone.
#[verifier::external_body]
pub(crate) fn read_bytes(bytes: &[u8]) -> (r: Result<
    (serde_json::Value, Option<serde_json::Error>),
    serde_json::Error,
>)
    ensures
        r == bytes_reading(bytes@),
{
    let mut reader = serde_json::Deserializer::from_slice(bytes);
    let value: serde_json::Value = serde::Deserialize::deserialize(&mut reader)?;
    Ok((value, reader.end().err()))
}

/// `Value::is_null`: whether the value is the null literal.
pub assume_specification[ serde_json::Value::is_null ](value: &serde_json::Value) -> (r: bool)
    ensures
        r == (tree_of(*value) is Null),
;

/// `Value::as_bool`: the boolean, where the value is one.
pub assume_specification[ serde_json::Value::as_bool ](value: &serde_json::Value) -> (r: Option<
    bool,
>)
    ensures
        match r {
            Some(b) => tree_of(*value) == Json::Bool(b),
            None => !(tree_of(*value) is Bool),
        },
;

/// `Value::as_str`: the text, where the value is a string.
pub assume_specification[ serde_json::Value::as_str ](value: &serde_json::Value) -> (r: Option<
    &str,
>)
    ensures
        match r {
            Some(text) => tree_of(*value) == Json::Text(text@),
            None => !(tree_of(*value) is Text),
        },
;

/// `Value::as_array`: the elements, where the value is an array.
pub assume_specification[ serde_json::Value::as_array ](value: &serde_json::Value) -> (r: Option<
    &Vec<serde_json::Value>,
>)
    ensures
        match r {
            Some(items) => tree_of(*value) == Json::Array(trees_of(items@)),
            None => !(tree_of(*value) is Array),
        },
;

/// `Value::as_number` and `Number::as_str`: the text of the literal, where
/// the value is a number.
#[verifier::external_body]
pub(crate) fn as_literal(value: &serde_json::Value) -> (r: Option<&str>)
    ensures
        match r {
            Some(literal) => tree_of(*value) == Json::Number(literal@),
            None => !(tree_of(*value) is Number),
        },
{
    match value.as_number() {
        Some(number) => Some(number.as_str()),
        None => None,
    }
}

/// `Value::as_object` and `Map::iter`: the members in the order of the map,
/// where the value is an object.
#[verifier::external_body]
pub(crate) fn as_members(value: &serde_json::Value) -> (r: Option<
    Vec<(&String, &serde_json::Value)>,
>)
    ensures
        match r {
            Some(members) => tree_of(*value) == Json::Object(member_trees(members@)),
            None => !(tree_of(*value) is Object),
        },
{
    match value.as_object() {
        Some(map) => Some(map.iter().collect()),
        None => None,
    }
}

/// `serde_json::Error::is_syntax`, `is_eof`, its `Display` text, `line` and
/// `column`.
#[verifier::external_body]
pub(crate) fn describe(error: &serde_json::Error) -> (failure: ParseFailure)
    ensures
        failure == failure_of(*error),
{
    ParseFailure {
        syntax: error.is_syntax(),
        eof: error.is_eof(),
        message: error.to_string(),
        line: error.line(),
        column: error.column(),
    }
}

/// `Map::new`: a map that holds nothing.
#[verifier::external_body]
pub(crate) fn new_members() -> (map: serde_json::Map<String, serde_json::Value>)
    ensures
        members_of(map) == Seq::<(Seq<char>, Seq<char>)>::empty(),
{
    serde_json::Map::new()
}

/// `Map::insert` of a text, as a `Value::String`, under a key. The map is a
/// `BTreeMap` with `String` keys: it holds each key once, a value that is
/// inserted under a key that it holds takes the place of the value that was
/// there, and it hands out its entries in ascending order of the keys, which
/// `String`s have by their bytes.
#[verifier::external_body]
pub(crate) fn insert_member(
    map: &mut serde_json::Map<String, serde_json::Value>,
    key: String,
    text: String,
)
    ensures
        members_of(*final(map)) == put(members_of(*old(map)), (key@, text@)),
{
    map.insert(key, serde_json::Value::String(text));
}

/// `Map::iter`, with `Value::as_str` on each value: the members in the order
/// of the map.
#[verifier::external_body]
pub(crate) fn members_in_order(map: &serde_json::Map<String, serde_json::Value>) -> (pairs: Vec<
    (String, String),
>)
    ensures
        member_models(pairs@) == members_of(*map),
{
    map.iter()
        .map(|(key, text)| (key.clone(), text.as_str().unwrap_or_default().to_owned()))
        .collect()
}

/// `serde_json::to_string` of a `str`. It does not fail on a `str`. It
/// writes a double quote, the text and a double quote; of the text it
/// escapes the double quote, the backslash and the characters below the
/// space, and leaves every other character as it is.
#[verifier::external_body]
pub(crate) fn quote(text: &str) -> (r: String)
    ensures
        r@ == if needs_no_escape(text@) {
            quoted(text@)
        } else {
            string_literal(text@)
        },
        r@.len() >= 2,
        r@.first() == '"',
        r@.last() == '"',
{
    serde_json::to_string(text).unwrap_or_default()
}

} // verus!
