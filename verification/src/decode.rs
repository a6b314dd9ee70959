//! The decoder: from the text of a JSON document to a host value.
//!
//! The document is read by `serde_json`; what this module decides is how each
//! node of what was read becomes a host value, and what the outcome is where
//! reading fails or something follows the value. Numbers are the one place
//! where the host has a say: an integer literal goes to the
//! integer-construction hook, where one is given, and any other number to the
//! float-construction hook. A hook gets the literal's text and its answer is
//! used as it stands.

use crate::error::{ErrorModel, HyperJsonError};
use crate::host::{in_key_order, HostContext, HostKey, HostModel, HostValue, KeyModel};
use crate::number::{integer_literal, scan_literal, IntegerLiteral};
use crate::order::{
    canonical, compare, lemma_canonical_of_values, place, put, text_before, text_bytes,
    with_values, KeyOrder,
};
use crate::tree::Json;
use crate::trusted::{
    as_literal, as_members, bytes_reading, describe, failure_of, member_trees, read_bytes,
    read_text, text_reading, tree_of, trees_of, ParseFailure,
};
use vstd::prelude::*;
use vstd::string::*;

verus! {

/// What the caller hands in to be decoded, as the host reports it: the value
/// read as text, and the value read as bytes. Bytes are looked at only where
/// the value is not text.
#[derive(Debug, PartialEq)]
pub struct DecodeInput {
    pub text: Option<String>,
    pub bytes: Option<Vec<u8>>,
}

/// The model of an outcome: that of the value, or that of the error.
pub open spec fn outcome_model(r: Result<HostValue, HyperJsonError>) -> Result<
    HostModel,
    ErrorModel,
> {
    match r {
        Ok(v) => Ok(v@),
        Err(e) => Err(e@),
    }
}

/// Whether a hook, where one is given, may be called with every text.
pub open spec fn hook_ready<H: Fn(String) -> Result<HostValue, String>>(hook: Option<H>) -> bool {
    hook matches Some(h) ==> forall|text: String| call_requires(h, (text,))
}

/// Whether `answer` is what a hook gave when it was called with the text of
/// a literal.
pub open spec fn hook_answers<H: Fn(String) -> Result<HostValue, String>>(
    hook: H,
    literal: Seq<char>,
    answer: Result<HostValue, String>,
) -> bool {
    exists|text: String| text@ == literal && #[trigger] call_ensures(hook, (text,), answer)
}

/// Whether `err` is what the codec reports when a hook, called with a
/// literal, fails: the hook's own message, handed on.
pub open spec fn hook_fails<H: Fn(String) -> Result<HostValue, String>>(
    hook: H,
    literal: Seq<char>,
    err: HyperJsonError,
) -> bool {
    err matches HyperJsonError::HostRuntimeFailure { message } && hook_answers(
        hook,
        literal,
        Err::<HostValue, String>(message),
    )
}

/// Whether `out` is a host value for a number that is no machine integer:
/// the float hook's answer to the literal where a hook is given, otherwise
/// the float that the literal writes.
pub open spec fn float_decoded<F: Fn(String) -> Result<HostValue, String>>(
    literal: Seq<char>,
    parse_float: Option<F>,
    out: HostValue,
) -> bool {
    match parse_float {
        Some(h) => hook_answers(h, literal, Ok::<HostValue, String>(out)),
        None => out@ == HostModel::Float(literal),
    }
}

/// Whether `out` is a host value for a number literal. An integer literal
/// goes to the integer hook where one is given; without one it becomes the
/// narrowest machine integer that holds it, and a float where none does. Any
/// other number is a float.
pub open spec fn number_decoded<
    F: Fn(String) -> Result<HostValue, String>,
    G: Fn(String) -> Result<HostValue, String>,
>(literal: Seq<char>, parse_float: Option<F>, parse_int: Option<G>, out: HostValue) -> bool {
    match integer_literal(text_bytes(literal)) {
        IntegerLiteral::NotInteger => float_decoded(literal, parse_float, out),
        IntegerLiteral::Unsigned(n) => match parse_int {
            Some(h) => hook_answers(h, literal, Ok::<HostValue, String>(out)),
            None => out == HostValue::Unsigned(n),
        },
        IntegerLiteral::Signed(n) => match parse_int {
            Some(h) => hook_answers(h, literal, Ok::<HostValue, String>(out)),
            None => out == HostValue::Signed(n),
        },
        IntegerLiteral::Oversized => match parse_int {
            Some(h) => hook_answers(h, literal, Ok::<HostValue, String>(out)),
            None => float_decoded(literal, parse_float, out),
        },
    }
}

/// Whether `err` reports the failure of the hook that a number literal goes
/// to. Without that hook a number does not fail.
pub open spec fn number_fails<
    F: Fn(String) -> Result<HostValue, String>,
    G: Fn(String) -> Result<HostValue, String>,
>(literal: Seq<char>, parse_float: Option<F>, parse_int: Option<G>, err: HyperJsonError) -> bool {
    let float_fails = parse_float matches Some(h) && hook_fails(h, literal, err);
    match integer_literal(text_bytes(literal)) {
        IntegerLiteral::NotInteger => float_fails,
        IntegerLiteral::Oversized => match parse_int {
            Some(h) => hook_fails(h, literal, err),
            None => float_fails,
        },
        _ => parse_int matches Some(h) && hook_fails(h, literal, err),
    }
}

/// Whether every key of a run of entries is a text.
pub open spec fn all_text(entries: Seq<(HostKey, HostValue)>) -> bool {
    forall|i: int| 0 <= i < entries.len() ==> (#[trigger] entries[i]).0 is Text
}

/// The entries of a mapping with text keys, as keys and values.
pub open spec fn keyed(entries: Seq<(HostKey, HostValue)>) -> Seq<(Seq<char>, HostValue)> {
    Seq::new(entries.len(), |i: int| (entries[i].0->Text_0@, entries[i].1))
}

/// The keys of the first members of an object, each with the value that was
/// built for its member.
pub open spec fn paired<V>(members: Seq<(Seq<char>, Json)>, built: Seq<V>) -> Seq<
    (Seq<char>, V),
> {
    Seq::new(built.len(), |i: int| (members[i].0, built[i]))
}

/// Whether `out` is a host value for a document: node for node the same
/// tree, each number as [`number_decoded`] has it, an array as a list in
/// document order, and an object as a mapping with text keys. A host value is
/// built for every member of an object, in document order; the mapping holds
/// them in canonical form, so that it has each key once, in ascending order,
/// with the value of the last member that has the key.
pub open spec fn decoded<
    F: Fn(String) -> Result<HostValue, String>,
    G: Fn(String) -> Result<HostValue, String>,
>(tree: Json, parse_float: Option<F>, parse_int: Option<G>, out: HostValue) -> bool
    decreases tree,
{
    match tree {
        Json::Null => out == HostValue::Null,
        Json::Bool(b) => out == HostValue::Bool(b),
        Json::Number(literal) => number_decoded(literal, parse_float, parse_int, out),
        Json::Text(s) => out@ == HostModel::Text(s),
        Json::Array(items) => {
            &&& out matches HostValue::List(values)
            &&& values@.len() == items.len()
            &&& forall|i: int|
                0 <= i < items.len() ==> decoded(
                    #[trigger] items[i],
                    parse_float,
                    parse_int,
                    values@[i],
                )
        },
        Json::Object(members) => {
            &&& out matches HostValue::Mapping(entries)
            &&& all_text(entries@)
            &&& exists|built: Seq<HostValue>|
                {
                    &&& built.len() == members.len()
                    &&& forall|i: int|
                        0 <= i < members.len() ==> decoded(
                            (#[trigger] members[i]).1,
                            parse_float,
                            parse_int,
                            built[i],
                        )
                    &&& keyed(entries@) == #[trigger] canonical(paired(members, built))
                }
        },
    }
}

/// Whether a host value can be built for a document: whether no hook fails
/// on any of its numbers.
pub open spec fn can_build<
    F: Fn(String) -> Result<HostValue, String>,
    G: Fn(String) -> Result<HostValue, String>,
>(tree: Json, parse_float: Option<F>, parse_int: Option<G>) -> bool {
    exists|out: HostValue| decoded(tree, parse_float, parse_int, out)
}

/// Whether a host value can be built for each of the first `n` elements of
/// an array.
pub open spec fn items_built<
    F: Fn(String) -> Result<HostValue, String>,
    G: Fn(String) -> Result<HostValue, String>,
>(items: Seq<Json>, n: int, parse_float: Option<F>, parse_int: Option<G>) -> bool {
    forall|k: int| 0 <= k < n ==> can_build(#[trigger] items[k], parse_float, parse_int)
}

/// Whether a host value can be built for each of the first `n` members of an
/// object.
pub open spec fn members_built<
    F: Fn(String) -> Result<HostValue, String>,
    G: Fn(String) -> Result<HostValue, String>,
>(members: Seq<(Seq<char>, Json)>, n: int, parse_float: Option<F>, parse_int: Option<G>) -> bool {
    forall|k: int| 0 <= k < n ==> can_build((#[trigger] members[k]).1, parse_float, parse_int)
}

/// Whether `err` reports the failure of a hook on a number of a document:
/// the first number, in document order, for which a hook failed, a host value
/// having been built for everything before it.
pub open spec fn decode_fails<
    F: Fn(String) -> Result<HostValue, String>,
    G: Fn(String) -> Result<HostValue, String>,
>(tree: Json, parse_float: Option<F>, parse_int: Option<G>, err: HyperJsonError) -> bool
    decreases tree,
{
    match tree {
        Json::Number(literal) => number_fails(literal, parse_float, parse_int, err),
        Json::Array(items) => exists|i: int|
            {
                &&& 0 <= i < items.len()
                &&& decode_fails(#[trigger] items[i], parse_float, parse_int, err)
                &&& items_built(items, i, parse_float, parse_int)
            },
        Json::Object(members) => exists|i: int|
            {
                &&& 0 <= i < members.len()
                &&& decode_fails((#[trigger] members[i]).1, parse_float, parse_int, err)
                &&& members_built(members, i, parse_float, parse_int)
            },
        _ => false,
    }
}

/// What a number literal becomes where no hook is given.
pub open spec fn plain_number(literal: Seq<char>) -> HostModel {
    match integer_literal(text_bytes(literal)) {
        IntegerLiteral::Unsigned(n) => HostModel::Unsigned(n),
        IntegerLiteral::Signed(n) => HostModel::Signed(n),
        _ => HostModel::Float(literal),
    }
}

/// What a document becomes where no hook is given.
pub open spec fn plain_value(tree: Json) -> HostModel
    decreases tree,
{
    match tree {
        Json::Null => HostModel::Null,
        Json::Bool(b) => HostModel::Bool(b),
        Json::Number(literal) => plain_number(literal),
        Json::Text(s) => HostModel::Text(s),
        Json::Array(items) => HostModel::List(plain_items(items, items.len())),
        Json::Object(members) => HostModel::Mapping(
            text_keyed(canonical(plain_pairs(members, members.len()))),
        ),
    }
}

/// What the first `n` elements of an array become where no hook is given.
pub open spec fn plain_items(items: Seq<Json>, n: nat) -> Seq<HostModel>
    decreases items, n,
{
    if n == 0 || n > items.len() {
        Seq::empty()
    } else {
        plain_items(items, (n - 1) as nat).push(plain_value(items[n - 1]))
    }
}

/// What the first `n` members of an object become where no hook is given,
/// each under its key.
pub open spec fn plain_pairs(members: Seq<(Seq<char>, Json)>, n: nat) -> Seq<
    (Seq<char>, HostModel),
>
    decreases members, n,
{
    if n == 0 || n > members.len() {
        Seq::empty()
    } else {
        plain_pairs(members, (n - 1) as nat).push((members[n - 1].0, plain_value(members[n - 1].1)))
    }
}

/// Keys and values as the entries of a mapping with text keys.
pub open spec fn text_keyed(pairs: Seq<(Seq<char>, HostModel)>) -> Seq<(KeyModel, HostModel)> {
    Seq::new(pairs.len(), |i: int| (KeyModel::Text(pairs[i].0), pairs[i].1))
}

/// Turns a hook's answer into the codec's: a value is used as it stands, a
/// failure is handed on with the hook's own message.
pub fn adopt(answer: Result<HostValue, String>) -> (r: Result<HostValue, HyperJsonError>)
    ensures
        match answer {
            Ok(value) => r == Ok::<HostValue, HyperJsonError>(value),
            Err(message) => r == Err::<HostValue, HyperJsonError>(
                HyperJsonError::HostRuntimeFailure { message },
            ),
        },
{
    match answer {
        Ok(value) => Ok(value),
        Err(message) => Err(HyperJsonError::HostRuntimeFailure { message }),
    }
}

/// The text of a key that is a text.
fn key_of(key: &HostKey) -> (text: &str)
    requires
        key is Text,
    ensures
        text@ == key->Text_0@,
{
    match key {
        HostKey::Text(text) => text.as_str(),
        _ => "",
    }
}

/// Puts one more entry among the entries of a mapping that lists its text
/// keys in ascending order: in the place of the entry with the same key,
/// where there is one, otherwise where its key belongs.
pub fn put_entry(entries: &mut Vec<(HostKey, HostValue)>, key: String, value: HostValue)
    requires
        all_text(old(entries)@),
    ensures
        all_text(final(entries)@),
        keyed(final(entries)@) == put(keyed(old(entries)@), (key@, value)),
{
    let ghost sorted = keyed(entries@);
    let len = entries.len();
    let mut p: usize = 0;
    let mut same = false;
    let mut searching = true;
    while searching && p < len
        invariant
            p <= len,
            len == entries@.len(),
            entries@ == old(entries)@,
            all_text(entries@),
            sorted == keyed(entries@),
            place(sorted, key@, 0) == place(sorted, key@, p as int),
            !searching ==> p < len && !text_before(sorted[p as int].0, key@),
            same ==> !searching && text_bytes(sorted[p as int].0) == text_bytes(key@),
            !searching && !same ==> text_bytes(sorted[p as int].0) != text_bytes(key@),
        decreases len - p + (if searching { 1int } else { 0int }),
    {
        match compare(key_of(&entries[p].0), key.as_str()) {
            KeyOrder::Before => {
                p = p + 1;
            },
            KeyOrder::Same => {
                same = true;
                searching = false;
            },
            KeyOrder::After => {
                searching = false;
            },
        }
    }
    let ghost entry = (key@, value);
    if same {
        entries.set(p, (HostKey::Text(key), value));
        assert(keyed(entries@) =~= sorted.update(p as int, entry));
    } else {
        entries.insert(p, (HostKey::Text(key), value));
        assert(keyed(entries@) =~= sorted.insert(p as int, entry));
    }
}

/// The builder of host values: the host context under which they are made
/// and the two hooks. One builder serves every node of a document, so a
/// hook, once given, is used for every number that it is for.
pub struct HyperJsonValue<'a, F, G> {
    pub ctx: &'a HostContext,
    pub parse_float: &'a Option<F>,
    pub parse_int: &'a Option<G>,
}

impl<
    'a,
    F: Fn(String) -> Result<HostValue, String>,
    G: Fn(String) -> Result<HostValue, String>,
> HyperJsonValue<'a, F, G> {
    /// Whether each hook that is given may be called with every text.
    pub open spec fn ready(&self) -> bool {
        hook_ready(*self.parse_float) && hook_ready(*self.parse_int)
    }

    /// Makes a builder from a host context and the two hooks.
    pub fn new(ctx: &'a HostContext, parse_float: &'a Option<F>, parse_int: &'a Option<G>) -> (seed:
        Self)
        ensures
            seed.ctx == ctx,
            seed.parse_float == parse_float,
            seed.parse_int == parse_int,
    {
        HyperJsonValue { ctx, parse_float, parse_int }
    }

    /// Calls a hook with the text of a number literal.
    pub fn parse_primitive<H: Fn(String) -> Result<HostValue, String>>(
        &self,
        literal: &str,
        parser: &H,
    ) -> (r: Result<HostValue, HyperJsonError>)
        requires
            forall|text: String| call_requires(*parser, (text,)),
        ensures
            match r {
                Ok(value) => hook_answers(*parser, literal@, Ok::<HostValue, String>(value)),
                Err(e) => hook_fails(*parser, literal@, e),
            },
    {
        let text = String::from_str(literal);
        let ghost sent = text;
        let answer = parser(text);
        assert(call_ensures(*parser, (sent,), answer));
        adopt(answer)
    }

    /// The host value of a boolean literal.
    pub fn visit_bool(&self, value: bool) -> (r: HostValue)
        ensures
            r == HostValue::Bool(value),
    {
        HostValue::Bool(value)
    }

    /// The host value of the null literal.
    pub fn visit_unit(&self) -> (r: HostValue)
        ensures
            r == HostValue::Null,
    {
        HostValue::Null
    }

    /// The host value of a string.
    pub fn visit_str(&self, value: &str) -> (r: HostValue)
        ensures
            r@ == HostModel::Text(value@),
    {
        HostValue::Text(String::from_str(value))
    }

    /// The host value of an integer literal that an unsigned machine integer
    /// holds.
    pub fn visit_u64(&self, value: u64, literal: &str) -> (r: Result<HostValue, HyperJsonError>)
        requires
            self.ready(),
        ensures
            match (*self.parse_int, r) {
                (Some(h), Ok(out)) => hook_answers(h, literal@, Ok::<HostValue, String>(out)),
                (Some(h), Err(e)) => hook_fails(h, literal@, e),
                (None, _) => r == Ok::<HostValue, HyperJsonError>(HostValue::Unsigned(value)),
            },
    {
        match self.parse_int {
            Some(parser) => self.parse_primitive(literal, parser),
            None => Ok(HostValue::Unsigned(value)),
        }
    }

    /// The host value of an integer literal that only a signed machine
    /// integer holds.
    pub fn visit_i64(&self, value: i64, literal: &str) -> (r: Result<HostValue, HyperJsonError>)
        requires
            self.ready(),
        ensures
            match (*self.parse_int, r) {
                (Some(h), Ok(out)) => hook_answers(h, literal@, Ok::<HostValue, String>(out)),
                (Some(h), Err(e)) => hook_fails(h, literal@, e),
                (None, _) => r == Ok::<HostValue, HyperJsonError>(HostValue::Signed(value)),
            },
    {
        match self.parse_int {
            Some(parser) => self.parse_primitive(literal, parser),
            None => Ok(HostValue::Signed(value)),
        }
    }

    /// The host value of a number that is a float.
    pub fn visit_f64(&self, literal: &str) -> (r: Result<HostValue, HyperJsonError>)
        requires
            self.ready(),
        ensures
            match r {
                Ok(out) => float_decoded(literal@, *self.parse_float, out),
                Err(e) => *self.parse_float matches Some(h) && hook_fails(h, literal@, e),
            },
    {
        match self.parse_float {
            Some(parser) => self.parse_primitive(literal, parser),
            None => Ok(HostValue::Float(String::from_str(literal))),
        }
    }

    /// The host value of a number literal.
    pub fn visit_number(&self, literal: &str) -> (r: Result<HostValue, HyperJsonError>)
        requires
            self.ready(),
        ensures
            match r {
                Ok(out) => number_decoded(literal@, *self.parse_float, *self.parse_int, out),
                Err(e) => number_fails(literal@, *self.parse_float, *self.parse_int, e),
            },
    {
        match scan_literal(literal) {
            IntegerLiteral::Unsigned(n) => self.visit_u64(n, literal),
            IntegerLiteral::Signed(n) => self.visit_i64(n, literal),
            IntegerLiteral::Oversized => match self.parse_int {
                Some(parser) => self.parse_primitive(literal, parser),
                None => self.visit_f64(literal),
            },
            IntegerLiteral::NotInteger => self.visit_f64(literal),
        }
    }

    /// The host value of an array: a list of the elements' host values, in
    /// document order.
    pub fn visit_seq(&self, items: &Vec<serde_json::Value>) -> (r: Result<
        HostValue,
        HyperJsonError,
    >)
        requires
            self.ready(),
        ensures
            match r {
                Ok(out) => decoded(
                    Json::Array(trees_of(items@)),
                    *self.parse_float,
                    *self.parse_int,
                    out,
                ),
                Err(e) => decode_fails(
                    Json::Array(trees_of(items@)),
                    *self.parse_float,
                    *self.parse_int,
                    e,
                ),
            },
        decreases Json::Array(trees_of(items@)), 0nat,
    {
        let ghost trees = trees_of(items@);
        let mut elements: Vec<HostValue> = Vec::new();
        let len = items.len();
        let mut i: usize = 0;
        while i < len
            invariant
                self.ready(),
                i <= len,
                len == items@.len(),
                trees == trees_of(items@),
                elements@.len() == i,
                forall|k: int|
                    0 <= k < i ==> decoded(
                        #[trigger] trees[k],
                        *self.parse_float,
                        *self.parse_int,
                        elements@[k],
                    ),
            decreases len - i,
        {
            proof {
                assert(trees[i as int] == tree_of(items@[i as int]));
                assert(decreases_to!(Json::Array(trees) => Json::Array(trees)->Array_0));
                vstd::seq::axiom_seq_index_decreases(trees, i as int);
            }
            match self.deserialize(&items[i]) {
                Ok(element) => {
                    elements.push(element);
                },
                Err(e) => {
                    proof {
                        let array = Json::Array(trees);
                        assert(decode_fails(
                            array->Array_0[i as int],
                            *self.parse_float,
                            *self.parse_int,
                            e,
                        ));
                        assert(items_built(
                            array->Array_0,
                            i as int,
                            *self.parse_float,
                            *self.parse_int,
                        )) by {
                            assert forall|k: int| 0 <= k < i implies can_build(
                                #[trigger] trees[k],
                                *self.parse_float,
                                *self.parse_int,
                            ) by {
                                assert(decoded(
                                    trees[k],
                                    *self.parse_float,
                                    *self.parse_int,
                                    elements@[k],
                                ));
                            }
                        }
                    }
                    return Err(e);
                },
            }
            i = i + 1;
        }
        Ok(HostValue::List(elements))
    }

    /// The host value of an object: a mapping from the members' keys, as
    /// text, to the members' host values. A value is built for every member,
    /// in document order; a later member takes the place of an earlier one
    /// with the same key, and the mapping lists its keys in ascending order.
    pub fn visit_map(&self, members: &Vec<(&String, &serde_json::Value)>) -> (r: Result<
        HostValue,
        HyperJsonError,
    >)
        requires
            self.ready(),
        ensures
            match r {
                Ok(out) => decoded(
                    Json::Object(member_trees(members@)),
                    *self.parse_float,
                    *self.parse_int,
                    out,
                ),
                Err(e) => decode_fails(
                    Json::Object(member_trees(members@)),
                    *self.parse_float,
                    *self.parse_int,
                    e,
                ),
            },
        decreases Json::Object(member_trees(members@)), 0nat,
    {
        let ghost trees = member_trees(members@);
        let ghost mut built: Seq<HostValue> = Seq::empty();
        let mut entries: Vec<(HostKey, HostValue)> = Vec::new();
        assert(keyed(entries@) =~= canonical(paired(trees, built)));
        let len = members.len();
        let mut i: usize = 0;
        while i < len
            invariant
                self.ready(),
                i <= len,
                len == members@.len(),
                trees == member_trees(members@),
                built.len() == i,
                forall|k: int|
                    0 <= k < i ==> decoded(
                        (#[trigger] trees[k]).1,
                        *self.parse_float,
                        *self.parse_int,
                        built[k],
                    ),
                all_text(entries@),
                keyed(entries@) == canonical(paired(trees, built)),
            decreases len - i,
        {
            proof {
                assert(trees[i as int] == (members@[i as int].0@, tree_of(*members@[i as int].1)));
                assert(decreases_to!(Json::Object(trees) => Json::Object(trees)->Object_0));
                vstd::seq::axiom_seq_index_decreases(trees, i as int);
                assert(decreases_to!(trees[i as int] => trees[i as int].1));
            }
            match self.deserialize(members[i].1) {
                Ok(value) => {
                    proof {
                        let next = built.push(value);
                        assert(paired(trees, next).drop_last() =~= paired(trees, built));
                        assert(paired(trees, next).last() == (trees[i as int].0, value));
                        built = next;
                    }
                    put_entry(&mut entries, members[i].0.clone(), value);
                },
                Err(e) => {
                    proof {
                        let object = Json::Object(trees);
                        assert(decode_fails(
                            object->Object_0[i as int].1,
                            *self.parse_float,
                            *self.parse_int,
                            e,
                        ));
                        assert(members_built(
                            object->Object_0,
                            i as int,
                            *self.parse_float,
                            *self.parse_int,
                        )) by {
                            assert forall|k: int| 0 <= k < i implies can_build(
                                (#[trigger] trees[k]).1,
                                *self.parse_float,
                                *self.parse_int,
                            ) by {
                                assert(decoded(
                                    trees[k].1,
                                    *self.parse_float,
                                    *self.parse_int,
                                    built[k],
                                ));
                            }
                        }
                    }
                    return Err(e);
                },
            }
            i = i + 1;
        }
        proof {
            let object = Json::Object(trees);
            assert(built.len() == object->Object_0.len());
            assert forall|k: int| 0 <= k < object->Object_0.len() implies decoded(
                (#[trigger] object->Object_0[k]).1,
                *self.parse_float,
                *self.parse_int,
                built[k],
            ) by {
                assert(decoded(trees[k].1, *self.parse_float, *self.parse_int, built[k]));
            }
            assert(keyed(entries@) == canonical(paired(object->Object_0, built)));
        }
        Ok(HostValue::Mapping(entries))
    }

    /// Builds the host value of a document, node by node.
    pub fn deserialize(&self, value: &serde_json::Value) -> (r: Result<HostValue, HyperJsonError>)
        requires
            self.ready(),
        ensures
            match r {
                Ok(out) => decoded(tree_of(*value), *self.parse_float, *self.parse_int, out),
                Err(e) => decode_fails(tree_of(*value), *self.parse_float, *self.parse_int, e),
            },
        decreases tree_of(*value), 1nat,
    {
        if value.is_null() {
            Ok(self.visit_unit())
        } else if let Some(b) = value.as_bool() {
            Ok(self.visit_bool(b))
        } else if let Some(literal) = as_literal(value) {
            self.visit_number(literal)
        } else if let Some(text) = value.as_str() {
            Ok(self.visit_str(text))
        } else if let Some(items) = value.as_array() {
            self.visit_seq(items)
        } else {
            // A node is of one of six kinds, so one that is none of the five above is an
            // object: the other arm is never taken.
            match as_members(value) {
                Some(members) => self.visit_map(&members),
                None => Err(HyperJsonError::InvalidValue { message: String::from_str("no value") }),
            }
        }
    }
}

/// What `serde_json` reads from the front of a document.
pub type Reading = Result<(serde_json::Value, Option<serde_json::Error>), serde_json::Error>;

/// Whether a text is one of the three names of a float that is not finite.
pub open spec fn is_special_float(text: Seq<char>) -> bool {
    text == "NaN"@ || text == "Infinity"@ || text == "-Infinity"@
}

/// The error that reports why a document could not be read: a syntax error
/// with its place where the document is malformed or ends before its value
/// does, otherwise a failure of the value.
pub open spec fn failure_error(failure: ParseFailure) -> ErrorModel {
    if failure.syntax || failure.eof {
        ErrorModel::Syntax {
            message: failure.message@,
            line: failure.line as nat,
            column: failure.column as nat,
        }
    } else {
        ErrorModel::InvalidValue { message: failure.message@ }
    }
}

/// Whether `r` is an outcome of decoding a document that was read. `trailing`
/// reports what follows the document's value, where anything but whitespace
/// does.
///
/// The outcome is a host value for the document only if nothing follows; a
/// hook's failure is reported before what follows the value is.
pub open spec fn document_decoded<
    F: Fn(String) -> Result<HostValue, String>,
    G: Fn(String) -> Result<HostValue, String>,
>(
    tree: Json,
    trailing: Option<ParseFailure>,
    parse_float: Option<F>,
    parse_int: Option<G>,
    r: Result<HostValue, HyperJsonError>,
) -> bool {
    match r {
        Ok(out) => trailing is None && decoded(tree, parse_float, parse_int, out),
        Err(x) => {
            ||| decode_fails(tree, parse_float, parse_int, x)
            ||| {
                &&& trailing matches Some(failure)
                &&& x@ == ErrorModel::TrailingData { message: failure.message@ }
                &&& can_build(tree, parse_float, parse_int)
            }
        },
    }
}

/// The outcome of decoding where no value could be read: the float that the
/// whole text of the document names, where the document is a text and names
/// one, otherwise the error of the reading.
pub open spec fn recovered(fallback: Option<Seq<char>>, failure: ParseFailure) -> Result<
    HostModel,
    ErrorModel,
> {
    if fallback matches Some(text) && is_special_float(text) {
        Ok(HostModel::Float(fallback->Some_0))
    } else {
        Err(failure_error(failure))
    }
}

/// What follows a document's value, as plain values.
pub open spec fn trailing_failure(trailing: Option<serde_json::Error>) -> Option<ParseFailure> {
    match trailing {
        Some(e) => Some(failure_of(e)),
        None => None,
    }
}

/// Whether `r` is an outcome of decoding a document of which `reading` was
/// read. `fallback` is the whole text of the document, where it is a text.
pub open spec fn reading_decoded<
    F: Fn(String) -> Result<HostValue, String>,
    G: Fn(String) -> Result<HostValue, String>,
>(
    reading: Reading,
    fallback: Option<Seq<char>>,
    parse_float: Option<F>,
    parse_int: Option<G>,
    r: Result<HostValue, HyperJsonError>,
) -> bool {
    match reading {
        Err(e) => outcome_model(r) == recovered(fallback, failure_of(e)),
        Ok((value, trailing)) => document_decoded(
            tree_of(value),
            trailing_failure(trailing),
            parse_float,
            parse_int,
            r,
        ),
    }
}

/// Whether `r` is an outcome of decoding an input: that of its text where it
/// is text, that of its bytes where it is bytes and no text, and otherwise
/// the error that says that the input is neither.
pub open spec fn input_decoded<
    F: Fn(String) -> Result<HostValue, String>,
    G: Fn(String) -> Result<HostValue, String>,
>(
    input: DecodeInput,
    parse_float: Option<F>,
    parse_int: Option<G>,
    r: Result<HostValue, HyperJsonError>,
) -> bool {
    match input.text {
        Some(text) => reading_decoded(
            text_reading(text@),
            Some(text@),
            parse_float,
            parse_int,
            r,
        ),
        None => match input.bytes {
            Some(bytes) => reading_decoded(
                bytes_reading(bytes@),
                None,
                parse_float,
                parse_int,
                r,
            ),
            None => r matches Err(x) && x@ == ErrorModel::UnsupportedInputType,
        },
    }
}

/// The outcome of decoding a document without hooks.
pub open spec fn plain_reading(reading: Reading, fallback: Option<Seq<char>>) -> Result<
    HostModel,
    ErrorModel,
> {
    match reading {
        Err(e) => recovered(fallback, failure_of(e)),
        Ok((value, trailing)) => match trailing {
            None => Ok(plain_value(tree_of(value))),
            Some(e) => Err(ErrorModel::TrailingData { message: failure_of(e).message@ }),
        },
    }
}

/// The outcome of decoding an input without hooks.
pub open spec fn plain_input(input: DecodeInput) -> Result<HostModel, ErrorModel> {
    match input.text {
        Some(text) => plain_reading(text_reading(text@), Some(text@)),
        None => match input.bytes {
            Some(bytes) => plain_reading(bytes_reading(bytes@), None),
            None => Err(ErrorModel::UnsupportedInputType),
        },
    }
}

/// The models of a prefix of plain elements are as many as the prefix is
/// long, each that of the element at its place.
pub proof fn lemma_plain_items(items: Seq<Json>, n: nat)
    requires
        n <= items.len(),
    ensures
        plain_items(items, n).len() == n,
        forall|i: int| 0 <= i < n ==> #[trigger] plain_items(items, n)[i] == plain_value(items[i]),
    decreases n,
{
    if n > 0 {
        lemma_plain_items(items, (n - 1) as nat);
    }
}

/// The first members of an object, built without hooks, are as many as the
/// prefix is long, each under its key.
pub proof fn lemma_plain_pairs(members: Seq<(Seq<char>, Json)>, n: nat)
    requires
        n <= members.len(),
    ensures
        plain_pairs(members, n).len() == n,
        forall|i: int|
            0 <= i < n ==> #[trigger] plain_pairs(members, n)[i] == (
                members[i].0,
                plain_value(members[i].1),
            ),
    decreases n,
{
    if n > 0 {
        lemma_plain_pairs(members, (n - 1) as nat);
    }
}

/// Without hooks a document has one host value.
pub proof fn lemma_plain_decoded<
    F: Fn(String) -> Result<HostValue, String>,
    G: Fn(String) -> Result<HostValue, String>,
>(tree: Json, out: HostValue)
    requires
        decoded(tree, None::<F>, None::<G>, out),
    ensures
        out@ == plain_value(tree),
    decreases tree,
{
    match tree {
        Json::Array(items) => {
            let values = out->List_0;
            assert forall|i: int| 0 <= i < items.len() implies values@[i]@ == plain_value(
                items[i],
            ) by {
                lemma_plain_decoded::<F, G>(items[i], values@[i]);
            }
            lemma_plain_items(items, items.len());
            crate::host::lemma_item_models(values@, values@.len());
            assert(crate::host::item_models(values@, values@.len()) =~= plain_items(
                items,
                items.len(),
            ));
        },
        Json::Object(members) => {
            let entries = out->Mapping_0;
            let built = choose|built: Seq<HostValue>|
                {
                    &&& built.len() == members.len()
                    &&& forall|i: int|
                        0 <= i < members.len() ==> decoded(
                            (#[trigger] members[i]).1,
                            None::<F>,
                            None::<G>,
                            built[i],
                        )
                    &&& keyed(entries@) == #[trigger] canonical(paired(members, built))
                };
            let model = |v: HostValue| v@;
            lemma_plain_pairs(members, members.len());
            assert forall|i: int| 0 <= i < members.len() implies built[i]@ == plain_value(
                members[i].1,
            ) by {
                lemma_plain_decoded::<F, G>(members[i].1, built[i]);
            }
            assert(with_values(paired(members, built), model) =~= plain_pairs(
                members,
                members.len(),
            ));
            lemma_canonical_of_values(paired(members, built), model);
            crate::host::lemma_entry_models(entries@, entries@.len());
            assert(crate::host::entry_models(entries@, entries@.len()) =~= text_keyed(
                with_values(keyed(entries@), model),
            ));
        },
        _ => {},
    }
}

/// Without hooks, every mapping of a decoded value has text keys only, in
/// strictly ascending order: none has a key twice.
pub proof fn lemma_plain_value_in_key_order(tree: Json)
    ensures
        in_key_order(plain_value(tree)),
    decreases tree,
{
    match tree {
        Json::Array(items) => {
            lemma_plain_items(items, items.len());
            let models = plain_items(items, items.len());
            assert forall|i: int| 0 <= i < models.len() implies in_key_order(
                #[trigger] models[i],
            ) by {
                lemma_plain_value_in_key_order(items[i]);
            }
        },
        Json::Object(members) => {
            let pairs = plain_pairs(members, members.len());
            let sorted = canonical(pairs);
            let models = text_keyed(sorted);
            lemma_plain_pairs(members, members.len());
            crate::laws::lemma_canonical_ascends(pairs);
            crate::laws::lemma_canonical_keeps_the_last(pairs);
            assert forall|j: int| 0 <= j < models.len() implies (#[trigger] models[j]).0 is Text
                && in_key_order(models[j].1) by {
                assert(sorted.contains(sorted[j]));
                let i = choose|i: int|
                    0 <= i < pairs.len() && #[trigger] pairs[i] == sorted[j]
                        && crate::laws::is_last_of_its_key(pairs, i);
                lemma_plain_value_in_key_order(members[i].1);
            }
            assert forall|i: int, j: int| 0 <= i < j < models.len() implies text_before(
                (#[trigger] models[i]).0->Text_0,
                (#[trigger] models[j]).0->Text_0,
            ) by {
                assert(text_before(sorted[i].0, sorted[j].0));
            }
        },
        _ => {},
    }
}

/// Without hooks the building of a host value does not fail.
pub proof fn lemma_plain_never_fails<
    F: Fn(String) -> Result<HostValue, String>,
    G: Fn(String) -> Result<HostValue, String>,
>(tree: Json, err: HyperJsonError)
    ensures
        !decode_fails(tree, None::<F>, None::<G>, err),
    decreases tree,
{
    if decode_fails(tree, None::<F>, None::<G>, err) {
        match tree {
            Json::Array(items) => {
                let i = choose|i: int|
                    0 <= i < items.len() && decode_fails(
                        #[trigger] items[i],
                        None::<F>,
                        None::<G>,
                        err,
                    );
                lemma_plain_never_fails::<F, G>(items[i], err);
            },
            Json::Object(members) => {
                let i = choose|i: int|
                    0 <= i < members.len() && decode_fails(
                        (#[trigger] members[i]).1,
                        None::<F>,
                        None::<G>,
                        err,
                    );
                lemma_plain_never_fails::<F, G>(members[i].1, err);
            },
            _ => {},
        }
    }
}

/// Without hooks the outcome of decoding is a function of the input.
pub proof fn lemma_plain_input<
    F: Fn(String) -> Result<HostValue, String>,
    G: Fn(String) -> Result<HostValue, String>,
>(input: DecodeInput, r: Result<HostValue, HyperJsonError>)
    requires
        input_decoded(input, None::<F>, None::<G>, r),
    ensures
        outcome_model(r) == plain_input(input),
{
    let reading = match input.text {
        Some(text) => Some(text_reading(text@)),
        None => match input.bytes {
            Some(bytes) => Some(bytes_reading(bytes@)),
            None => None,
        },
    };
    if let Some(Ok((value, trailing))) = reading {
        let tree = tree_of(value);
        match r {
            Ok(out) => {
                lemma_plain_decoded::<F, G>(tree, out);
            },
            Err(x) => {
                lemma_plain_never_fails::<F, G>(tree, x);
            },
        }
    }
}

/// Without hooks, no mapping of a decoded value has a key twice: each has
/// text keys only, in strictly ascending order.
pub proof fn lemma_plain_input_in_key_order<
    F: Fn(String) -> Result<HostValue, String>,
    G: Fn(String) -> Result<HostValue, String>,
>(input: DecodeInput, r: Result<HostValue, HyperJsonError>)
    requires
        input_decoded(input, None::<F>, None::<G>, r),
    ensures
        r matches Ok(out) ==> in_key_order(out@),
{
    let reading = match input.text {
        Some(text) => Some(text_reading(text@)),
        None => match input.bytes {
            Some(bytes) => Some(bytes_reading(bytes@)),
            None => None,
        },
    };
    if let Some(Ok((value, trailing))) = reading {
        if let Ok(out) = r {
            lemma_plain_decoded::<F, G>(tree_of(value), out);
            lemma_plain_value_in_key_order(tree_of(value));
        }
    }
}

/// Recognises the three names of a float that is not finite: `NaN`,
/// `Infinity` and `-Infinity`. The text is taken as a whole; any other text
/// names no float.
pub fn convert_special_floats(ctx: &HostContext, text: &str) -> (r: Option<HostValue>)
    ensures
        match r {
            Some(out) => is_special_float(text@) && out@ == HostModel::Float(text@),
            None => !is_special_float(text@),
        },
{
    let whole = String::from_str(text);
    let nan = String::from_str("NaN");
    let infinity = String::from_str("Infinity");
    let neg_infinity = String::from_str("-Infinity");
    if whole == nan || whole == infinity || whole == neg_infinity {
        Some(HostValue::Float(whole))
    } else {
        None
    }
}

/// The error that reports why a document could not be read.
pub fn reading_error(failure: ParseFailure) -> (e: HyperJsonError)
    ensures
        e@ == failure_error(failure),
{
    if failure.syntax || failure.eof {
        HyperJsonError::Syntax {
            message: failure.message,
            line: failure.line,
            column: failure.column,
        }
    } else {
        HyperJsonError::InvalidValue { message: failure.message }
    }
}

/// Decides the outcome where no value could be read from a document. `text`
/// is the whole document, where it is a text.
pub fn recover(ctx: &HostContext, text: Option<&str>, failure: ParseFailure) -> (r: Result<
    HostValue,
    HyperJsonError,
>)
    ensures
        outcome_model(r) == recovered(
            match text {
                Some(t) => Some(t@),
                None => None,
            },
            failure,
        ),
{
    let special = match text {
        Some(text) => convert_special_floats(ctx, text),
        None => None,
    };
    match special {
        Some(out) => Ok(out),
        None => Err(reading_error(failure)),
    }
}

/// Builds the host value of a document that was read, then reports what
/// follows the value, where anything does.
pub fn decode_document<
    F: Fn(String) -> Result<HostValue, String>,
    G: Fn(String) -> Result<HostValue, String>,
>(
    ctx: &HostContext,
    value: &serde_json::Value,
    trailing: Option<ParseFailure>,
    parse_float: &Option<F>,
    parse_int: &Option<G>,
) -> (r: Result<HostValue, HyperJsonError>)
    requires
        hook_ready(*parse_float),
        hook_ready(*parse_int),
    ensures
        document_decoded(tree_of(*value), trailing, *parse_float, *parse_int, r),
{
    let seed = HyperJsonValue::new(ctx, parse_float, parse_int);
    match seed.deserialize(value) {
        Err(e) => Err(e),
        Ok(out) => match trailing {
            None => Ok(out),
            Some(failure) => Err(HyperJsonError::TrailingData { message: failure.message }),
        },
    }
}

/// What `serde_json` found after a document's value, as plain values.
fn describe_trailing(trailing: Option<serde_json::Error>) -> (r: Option<ParseFailure>)
    ensures
        r == trailing_failure(trailing),
{
    match trailing {
        Some(e) => Some(describe(&e)),
        None => None,
    }
}

/// Decodes one JSON document into a host value.
///
/// The input is decoded as text where it is text, and as bytes where it is
/// bytes and no text. A text that is no document but is, as a whole, one of
/// `NaN`, `Infinity` and `-Infinity` decodes to that float. Each hook that is
/// given must accept every text; it is called with the literal of each number
/// that it is for, and its answer stands in the value as it is.
pub fn loads_impl<
    F: Fn(String) -> Result<HostValue, String>,
    G: Fn(String) -> Result<HostValue, String>,
>(ctx: &HostContext, input: &DecodeInput, parse_float: &Option<F>, parse_int: &Option<G>) -> (r:
    Result<HostValue, HyperJsonError>)
    requires
        hook_ready(*parse_float),
        hook_ready(*parse_int),
    ensures
        input_decoded(*input, *parse_float, *parse_int, r),
        parse_float is None && parse_int is None ==> outcome_model(r) == plain_input(*input),
        parse_float is None && parse_int is None ==> (r matches Ok(out) ==> in_key_order(out@)),
{
    let r = match &input.text {
        Some(text) => match read_text(text.as_str()) {
            Ok((value, trailing)) => decode_document(
                ctx,
                &value,
                describe_trailing(trailing),
                parse_float,
                parse_int,
            ),
            Err(e) => recover(ctx, Some(text.as_str()), describe(&e)),
        },
        None => match &input.bytes {
            Some(bytes) => match read_bytes(bytes.as_slice()) {
                Ok((value, trailing)) => decode_document(
                    ctx,
                    &value,
                    describe_trailing(trailing),
                    parse_float,
                    parse_int,
                ),
                Err(e) => recover(ctx, None, describe(&e)),
            },
            None => Err(HyperJsonError::UnsupportedInputType),
        },
    };
    proof {
        if parse_float is None && parse_int is None {
            lemma_plain_input::<F, G>(*input, r);
            lemma_plain_input_in_key_order::<F, G>(*input, r);
        }
    }
    r
}

/// Decodes one JSON document into a host value; see [`loads_impl`].
pub fn loads<
    F: Fn(String) -> Result<HostValue, String>,
    G: Fn(String) -> Result<HostValue, String>,
>(ctx: &HostContext, input: &DecodeInput, parse_float: &Option<F>, parse_int: &Option<G>) -> (r:
    Result<HostValue, HyperJsonError>)
    requires
        hook_ready(*parse_float),
        hook_ready(*parse_int),
    ensures
        input_decoded(*input, *parse_float, *parse_int, r),
        parse_float is None && parse_int is None ==> outcome_model(r) == plain_input(*input),
        parse_float is None && parse_int is None ==> (r matches Ok(out) ==> in_key_order(out@)),
{
    loads_impl(ctx, input, parse_float, parse_int)
}

} // verus!
