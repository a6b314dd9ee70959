//! A parsed document, before any host value is made of it.

use vstd::prelude::*;

verus! {

/// The document that a parsed value holds, node by node. A number is the
/// text of its literal: the digits as the document has them, with sign,
/// fraction and exponent, the exponent always marked by `e` and a sign.
pub enum Json {
    /// The literal `null`.
    Null,
    /// The literal `true` or `false`.
    Bool(bool),
    /// A number, by the text of its literal.
    Number(Seq<char>),
    /// A string, unescaped.
    Text(Seq<char>),
    /// An array, its elements in document order.
    Array(Seq<Json>),
    /// An object: keys and member values.
    Object(Seq<(Seq<char>, Json)>),
}

} // verus!
