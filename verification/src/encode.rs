//! The encoder: from a host value to the text of a JSON document.
//!
//! The text is written in one pass and only ever appended to. A mapping is
//! written in the order in which the host iterates it, unless canonical key
//! order is asked for: then its members are first gathered in a
//! `serde_json::Map`, where a later member takes the place of an earlier one
//! with the same key, and written in the order of that map, which is the
//! ascending order of the keys.

use crate::error::{ErrorModel, HyperJsonError};
use crate::host::{
    lemma_entry_models, lemma_item_models, HostContext, HostKey, HostModel, HostValue, KeyModel,
    entry_models, item_models,
};
use crate::number::{decimal, is_json_number, is_number_literal, push_signed, push_unsigned, signed_decimal};
use crate::order::{canonical, text_bytes};
use crate::trusted::{
    insert_member, member_models, members_in_order, members_of, new_members, quote,
    written_string,
};
use vstd::prelude::*;
use vstd::string::*;

verus! {

/// A member of an object on the wire: the text of its key, not yet quoted,
/// and the text of its value.
pub type Member = (Seq<char>, Seq<char>);

/// The text under which a key is written: `null` for the host's null,
/// `true` or `false` for a boolean, otherwise the key's own text coercion.
/// A key with none of these has no text.
pub open spec fn key_text(key: KeyModel) -> Option<Seq<char>> {
    match key {
        KeyModel::Null => Some("null"@),
        KeyModel::Bool(b) => Some(
            if b {
                "true"@
            } else {
                "false"@
            },
        ),
        KeyModel::Text(s) => Some(s),
        KeyModel::Other => None,
    }
}

/// A list of pieces with one more piece after it, a comma between them.
pub open spec fn joined(body: Seq<char>, piece: Seq<char>, first: bool) -> Seq<char> {
    if first {
        piece
    } else {
        body + ","@ + piece
    }
}

/// One member as it is written: the quoted key, a colon, the value.
pub open spec fn member_text(member: Member) -> Seq<char> {
    written_string(member.0) + ":"@ + member.1
}

/// The document that encodes a value, or the error at the first place, in
/// the order of writing, that cannot be encoded. `sort` asks for canonical
/// key order in every mapping of the value.
pub open spec fn encode_value(value: HostModel, sort: bool) -> Result<Seq<char>, ErrorModel>
    decreases value,
{
    match value {
        HostModel::Null => Ok("null"@),
        HostModel::Bool(b) => Ok(
            if b {
                "true"@
            } else {
                "false"@
            },
        ),
        HostModel::Unsigned(n) => Ok(decimal(n as nat)),
        HostModel::Signed(n) => Ok(signed_decimal(n as int)),
        HostModel::Float(text) => if is_number_literal(text_bytes(text)) {
            Ok(text)
        } else {
            Err(ErrorModel::NonFiniteFloat { text })
        },
        HostModel::Text(s) => Ok(written_string(s)),
        HostModel::List(items) => match encode_items(items, sort, items.len()) {
            Ok(body) => Ok("["@ + body + "]"@),
            Err(e) => Err(e),
        },
        HostModel::Tuple(items) => match encode_items(items, sort, items.len()) {
            Ok(body) => Ok("["@ + body + "]"@),
            Err(e) => Err(e),
        },
        HostModel::Mapping(entries) => if sort {
            match encode_members(entries, entries.len()) {
                Ok(members) => Ok("{"@ + members_text(canonical(members), canonical(members).len()) + "}"@),
                Err(e) => Err(e),
            }
        } else {
            match encode_entries(entries, entries.len()) {
                Ok(body) => Ok("{"@ + body + "}"@),
                Err(e) => Err(e),
            }
        },
        HostModel::Other { handle, repr, kind_name } => Err(
            ErrorModel::NonSerializableValue { repr, kind_name },
        ),
    }
}

/// The first `n` items of an array as they are written, commas between them,
/// or the first error among them.
pub open spec fn encode_items(items: Seq<HostModel>, sort: bool, n: nat) -> Result<
    Seq<char>,
    ErrorModel,
>
    decreases items, n,
{
    if n == 0 || n > items.len() {
        Ok(Seq::empty())
    } else {
        match encode_items(items, sort, (n - 1) as nat) {
            Err(e) => Err(e),
            Ok(body) => match encode_value(items[n - 1], sort) {
                Err(e) => Err(e),
                Ok(piece) => Ok(joined(body, piece, n == 1)),
            },
        }
    }
}

/// The first `n` entries of a mapping as they are written in the host's own
/// order, commas between them, or the first error among them. The key of an
/// entry is coerced before its value is encoded.
pub open spec fn encode_entries(entries: Seq<(KeyModel, HostModel)>, n: nat) -> Result<
    Seq<char>,
    ErrorModel,
>
    decreases entries, n,
{
    if n == 0 || n > entries.len() {
        Ok(Seq::empty())
    } else {
        match encode_entries(entries, (n - 1) as nat) {
            Err(e) => Err(e),
            Ok(body) => match key_text(entries[n - 1].0) {
                None => Err(ErrorModel::KeyNotStringCoercible),
                Some(key) => match encode_value(entries[n - 1].1, false) {
                    Err(e) => Err(e),
                    Ok(piece) => Ok(joined(body, member_text((key, piece)), n == 1)),
                },
            },
        }
    }
}

/// The first `n` entries of a mapping as members, in the host's own order,
/// each value encoded with canonical key order; or the first error among
/// them.
pub open spec fn encode_members(entries: Seq<(KeyModel, HostModel)>, n: nat) -> Result<
    Seq<Member>,
    ErrorModel,
>
    decreases entries, n,
{
    if n == 0 || n > entries.len() {
        Ok(Seq::empty())
    } else {
        match encode_members(entries, (n - 1) as nat) {
            Err(e) => Err(e),
            Ok(members) => match key_text(entries[n - 1].0) {
                None => Err(ErrorModel::KeyNotStringCoercible),
                Some(key) => match encode_value(entries[n - 1].1, true) {
                    Err(e) => Err(e),
                    Ok(piece) => Ok(members.push((key, piece))),
                },
            },
        }
    }
}

/// The first `n` of a run of members as they are written, commas between
/// them.
pub open spec fn members_text(members: Seq<Member>, n: nat) -> Seq<char>
    decreases n,
{
    if n == 0 || n > members.len() {
        Seq::empty()
    } else {
        joined(members_text(members, (n - 1) as nat), member_text(members[n - 1]), n == 1)
    }
}

/// An error among the first items of an array is the error of the array.
pub proof fn lemma_items_error_stays(items: Seq<HostModel>, sort: bool, n: nat, m: nat)
    requires
        n <= m <= items.len(),
        encode_items(items, sort, n) is Err,
    ensures
        encode_items(items, sort, m) == encode_items(items, sort, n),
    decreases m,
{
    if n < m {
        lemma_items_error_stays(items, sort, n, (m - 1) as nat);
    }
}

/// An error among the first entries of a mapping is the error of the mapping.
pub proof fn lemma_entries_error_stays(entries: Seq<(KeyModel, HostModel)>, n: nat, m: nat)
    requires
        n <= m <= entries.len(),
        encode_entries(entries, n) is Err,
    ensures
        encode_entries(entries, m) == encode_entries(entries, n),
    decreases m,
{
    if n < m {
        lemma_entries_error_stays(entries, n, (m - 1) as nat);
    }
}

/// An error among the first members of a mapping is the error of the mapping.
pub proof fn lemma_members_error_stays(entries: Seq<(KeyModel, HostModel)>, n: nat, m: nat)
    requires
        n <= m <= entries.len(),
        encode_members(entries, n) is Err,
    ensures
        encode_members(entries, m) == encode_members(entries, n),
    decreases m,
{
    if n < m {
        lemma_members_error_stays(entries, n, (m - 1) as nat);
    }
}

/// Coerces a mapping key to the text under which it is written.
pub fn coerce_key(key: &HostKey) -> (r: Result<String, HyperJsonError>)
    ensures
        match r {
            Ok(text) => key_text(key@) == Some(text@),
            Err(e) => key_text(key@) is None && e@ == ErrorModel::KeyNotStringCoercible,
        },
{
    match key {
        HostKey::Null => Ok(String::from_str("null")),
        HostKey::Bool(b) => Ok(
            if *b {
                String::from_str("true")
            } else {
                String::from_str("false")
            },
        ),
        HostKey::Text(s) => Ok(s.clone()),
        HostKey::Other => Err(HyperJsonError::KeyNotStringCoercible),
    }
}

/// One value on its way to the wire: the value, the host context under
/// which it is read, and whether its mappings are written in canonical key
/// order.
pub struct SerializeHostValue<'a> {
    pub ctx: &'a HostContext,
    pub obj: &'a HostValue,
    pub sort_keys: bool,
}

impl<'a> SerializeHostValue<'a> {
    /// Makes `obj` ready to be written.
    pub fn new(ctx: &'a HostContext, obj: &'a HostValue, sort_keys: bool) -> (s: Self)
        ensures
            s.ctx == ctx,
            s.obj == obj,
            s.sort_keys == sort_keys,
    {
        SerializeHostValue { ctx, obj, sort_keys }
    }

    /// Appends the document that encodes the value to `out`. Where the value
    /// cannot be encoded, the error of the first place that cannot is
    /// returned and `out` is as it was: there is no partial result.
    pub fn serialize(&self, out: &mut String) -> (r: Result<(), HyperJsonError>)
        ensures
            match r {
                Ok(()) => encode_value(self.obj@, self.sort_keys) matches Ok(text) && final(out)@
                    == old(out)@ + text,
                Err(e) => encode_value(self.obj@, self.sort_keys) == Err::<Seq<char>, ErrorModel>(
                    e@,
                ) && final(out)@ == old(out)@,
            },
    {
        let mut document = String::new();
        match self.emit(&mut document) {
            Ok(()) => {
                out.append(document.as_str());
                assert(document@ =~= encode_value(self.obj@, self.sort_keys)->Ok_0);
                Ok(())
            },
            Err(e) => Err(e),
        }
    }

    /// Writes the document that encodes the value at the end of `out`, in one
    /// pass. Where the value cannot be encoded, what was written up to there
    /// stays in `out`.
    fn emit(&self, out: &mut String) -> (r: Result<(), HyperJsonError>)
        ensures
            match r {
                Ok(()) => encode_value(self.obj@, self.sort_keys) matches Ok(text) && final(out)@
                    == old(out)@ + text,
                Err(e) => encode_value(self.obj@, self.sort_keys) == Err::<Seq<char>, ErrorModel>(
                    e@,
                ),
            },
        decreases *self.obj,
    {
        match self.obj {
            HostValue::Null => {
                out.append("null");
                Ok(())
            },
            HostValue::Bool(b) => {
                if *b {
                    out.append("true");
                } else {
                    out.append("false");
                }
                Ok(())
            },
            HostValue::Unsigned(n) => {
                push_unsigned(out, *n);
                Ok(())
            },
            HostValue::Signed(n) => {
                push_signed(out, *n);
                Ok(())
            },
            HostValue::Float(text) => {
                if is_json_number(text.as_str()) {
                    out.append(text.as_str());
                    Ok(())
                } else {
                    Err(HyperJsonError::NonFiniteFloat { text: text.clone() })
                }
            },
            HostValue::Text(s) => {
                let literal = quote(s.as_str());
                out.append(literal.as_str());
                Ok(())
            },
            HostValue::List(items) => {
                proof {
                    assert(decreases_to!(*self.obj => self.obj->List_0));
                }
                let r = Self::serialize_items(self.ctx, items, self.sort_keys, out);
                proof {
                    lemma_item_models(items@, items@.len());
                    if r is Ok {
                        let text = encode_value(self.obj@, self.sort_keys)->Ok_0;
                        assert(out@ =~= old(out)@ + text);
                    }
                }
                r
            },
            HostValue::Tuple(items) => {
                proof {
                    assert(decreases_to!(*self.obj => self.obj->Tuple_0));
                }
                let r = Self::serialize_items(self.ctx, items, self.sort_keys, out);
                proof {
                    lemma_item_models(items@, items@.len());
                    if r is Ok {
                        let text = encode_value(self.obj@, self.sort_keys)->Ok_0;
                        assert(out@ =~= old(out)@ + text);
                    }
                }
                r
            },
            HostValue::Mapping(entries) => {
                proof {
                    assert(decreases_to!(*self.obj => self.obj->Mapping_0));
                }
                let r = if self.sort_keys {
                    Self::serialize_canonical(self.ctx, entries, out)
                } else {
                    Self::serialize_entries(self.ctx, entries, out)
                };
                proof {
                    lemma_entry_models(entries@, entries@.len());
                    if r is Ok {
                        let text = encode_value(self.obj@, self.sort_keys)->Ok_0;
                        assert(out@ =~= old(out)@ + text);
                    }
                }
                r
            },
            HostValue::Other { handle, repr, kind_name } => {
                let repr = match repr {
                    Some(text) => Some(text.clone()),
                    None => None,
                };
                Err(HyperJsonError::NonSerializableValue { repr, kind_name: kind_name.clone() })
            },
        }
    }

    /// Writes an array: the items in order, between square brackets.
    fn serialize_items(
        ctx: &HostContext,
        items: &Vec<HostValue>,
        sort_keys: bool,
        out: &mut String,
    ) -> (r: Result<(), HyperJsonError>)
        ensures
            match r {
                Ok(()) => encode_items(item_models(items@, items@.len()), sort_keys, items@.len())
                    matches Ok(body) && final(out)@ == old(out)@ + "["@ + body + "]"@,
                Err(e) => encode_items(item_models(items@, items@.len()), sort_keys, items@.len())
                    == Err::<Seq<char>, ErrorModel>(e@),
            },
        decreases *items,
    {
        let ghost start = out@;
        let ghost models = item_models(items@, items@.len());
        let ghost mut body: Seq<char> = Seq::empty();
        proof {
            lemma_item_models(items@, items@.len());
        }
        out.append("[");
        let len = items.len();
        let mut i: usize = 0;
        while i < len
            invariant
                i <= len,
                len == items@.len(),
                models == item_models(items@, items@.len()),
                models.len() == len,
                forall|k: int| 0 <= k < len ==> #[trigger] models[k] == items@[k]@,
                encode_items(models, sort_keys, i as nat) == Ok::<Seq<char>, ErrorModel>(body),
                out@ == start + "["@ + body,
            decreases len - i,
        {
            if i > 0 {
                out.append(",");
            }
            proof {
                vstd::std_specs::vec::axiom_vec_index_decreases(*items, i as int);
            }
            let ghost prior = out@;
            let child = SerializeHostValue { ctx, obj: &items[i], sort_keys };
            match child.emit(out) {
                Ok(()) => {
                    proof {
                        let piece = encode_value(models[i as int], sort_keys)->Ok_0;
                        assert(out@ == prior + piece);
                        let next = joined(body, piece, i == 0);
                        assert(encode_items(models, sort_keys, (i + 1) as nat) == Ok::<
                            Seq<char>,
                            ErrorModel,
                        >(next));
                        assert(out@ =~= start + "["@ + next);
                        body = next;
                    }
                },
                Err(e) => {
                    proof {
                        assert(encode_items(models, sort_keys, (i + 1) as nat) == Err::<
                            Seq<char>,
                            ErrorModel,
                        >(e@));
                        lemma_items_error_stays(models, sort_keys, (i + 1) as nat, len as nat);
                    }
                    return Err(e);
                },
            }
            i = i + 1;
        }
        out.append("]");
        Ok(())
    }

    /// Writes a mapping in the host's own order: the members in the order of
    /// the entries, between braces.
    fn serialize_entries(ctx: &HostContext, entries: &Vec<(HostKey, HostValue)>, out: &mut String) -> (r:
        Result<(), HyperJsonError>)
        ensures
            match r {
                Ok(()) => encode_entries(entry_models(entries@, entries@.len()), entries@.len())
                    matches Ok(body) && final(out)@ == old(out)@ + "{"@ + body + "}"@,
                Err(e) => encode_entries(entry_models(entries@, entries@.len()), entries@.len())
                    == Err::<Seq<char>, ErrorModel>(e@),
            },
        decreases *entries,
    {
        let ghost start = out@;
        let ghost models = entry_models(entries@, entries@.len());
        let ghost mut body: Seq<char> = Seq::empty();
        proof {
            lemma_entry_models(entries@, entries@.len());
        }
        out.append("{");
        let len = entries.len();
        let mut i: usize = 0;
        while i < len
            invariant
                i <= len,
                len == entries@.len(),
                models == entry_models(entries@, entries@.len()),
                models.len() == len,
                forall|k: int|
                    0 <= k < len ==> #[trigger] models[k] == (entries@[k].0@, entries@[k].1@),
                encode_entries(models, i as nat) == Ok::<Seq<char>, ErrorModel>(body),
                out@ == start + "{"@ + body,
            decreases len - i,
        {
            let key = match coerce_key(&entries[i].0) {
                Ok(key) => key,
                Err(e) => {
                    proof {
                        assert(encode_entries(models, (i + 1) as nat) == Err::<
                            Seq<char>,
                            ErrorModel,
                        >(e@));
                        lemma_entries_error_stays(models, (i + 1) as nat, len as nat);
                    }
                    return Err(e);
                },
            };
            if i > 0 {
                out.append(",");
            }
            let literal = quote(key.as_str());
            out.append(literal.as_str());
            out.append(":");
            proof {
                vstd::std_specs::vec::axiom_vec_index_decreases(*entries, i as int);
                assert(decreases_to!(entries@[i as int] => entries@[i as int].1));
            }
            let ghost prior = out@;
            let child = SerializeHostValue { ctx, obj: &entries[i].1, sort_keys: false };
            match child.emit(out) {
                Ok(()) => {
                    proof {
                        let piece = encode_value(models[i as int].1, false)->Ok_0;
                        assert(out@ == prior + piece);
                        let next = joined(body, member_text((key@, piece)), i == 0);
                        assert(encode_entries(models, (i + 1) as nat) == Ok::<
                            Seq<char>,
                            ErrorModel,
                        >(next));
                        assert(out@ =~= start + "{"@ + next);
                        body = next;
                    }
                },
                Err(e) => {
                    proof {
                        assert(encode_entries(models, (i + 1) as nat) == Err::<
                            Seq<char>,
                            ErrorModel,
                        >(e@));
                        lemma_entries_error_stays(models, (i + 1) as nat, len as nat);
                    }
                    return Err(e);
                },
            }
            i = i + 1;
        }
        out.append("}");
        Ok(())
    }

    /// Writes a mapping in canonical key order: the members are gathered by
    /// key first, then written in ascending key order between braces.
    fn serialize_canonical(ctx: &HostContext, entries: &Vec<(HostKey, HostValue)>, out: &mut String) -> (r:
        Result<(), HyperJsonError>)
        ensures
            match r {
                Ok(()) => encode_members(entry_models(entries@, entries@.len()), entries@.len())
                    matches Ok(members) && final(out)@ == old(out)@ + "{"@ + members_text(
                    canonical(members),
                    canonical(members).len(),
                ) + "}"@,
                Err(e) => encode_members(entry_models(entries@, entries@.len()), entries@.len())
                    == Err::<Seq<Member>, ErrorModel>(e@),
            },
        decreases *entries,
    {
        let ghost start = out@;
        let ghost models = entry_models(entries@, entries@.len());
        let ghost mut members: Seq<Member> = Seq::empty();
        proof {
            lemma_entry_models(entries@, entries@.len());
        }
        let mut map = new_members();
        assert(members_of(map) =~= canonical(members));
        let len = entries.len();
        let mut i: usize = 0;
        while i < len
            invariant
                i <= len,
                len == entries@.len(),
                models == entry_models(entries@, entries@.len()),
                models.len() == len,
                forall|k: int|
                    0 <= k < len ==> #[trigger] models[k] == (entries@[k].0@, entries@[k].1@),
                encode_members(models, i as nat) == Ok::<Seq<Member>, ErrorModel>(members),
                members_of(map) == canonical(members),
            decreases len - i,
        {
            let key = match coerce_key(&entries[i].0) {
                Ok(key) => key,
                Err(e) => {
                    proof {
                        assert(encode_members(models, (i + 1) as nat) == Err::<
                            Seq<Member>,
                            ErrorModel,
                        >(e@));
                        lemma_members_error_stays(models, (i + 1) as nat, len as nat);
                    }
                    return Err(e);
                },
            };
            proof {
                vstd::std_specs::vec::axiom_vec_index_decreases(*entries, i as int);
                assert(decreases_to!(entries@[i as int] => entries@[i as int].1));
            }
            let mut text = String::new();
            let child = SerializeHostValue { ctx, obj: &entries[i].1, sort_keys: true };
            match child.emit(&mut text) {
                Ok(()) => {
                    proof {
                        let piece = encode_value(models[i as int].1, true)->Ok_0;
                        assert(text@ =~= piece);
                        let next = members.push((key@, piece));
                        assert(encode_members(models, (i + 1) as nat) == Ok::<
                            Seq<Member>,
                            ErrorModel,
                        >(next));
                        assert(next.drop_last() =~= members);
                        members = next;
                    }
                },
                Err(e) => {
                    proof {
                        assert(encode_members(models, (i + 1) as nat) == Err::<
                            Seq<Member>,
                            ErrorModel,
                        >(e@));
                        lemma_members_error_stays(models, (i + 1) as nat, len as nat);
                    }
                    return Err(e);
                },
            }
            insert_member(&mut map, key, text);
            i = i + 1;
        }
        let pairs = members_in_order(&map);
        out.append("{");
        let ghost sorted = canonical(members);
        let count = pairs.len();
        let mut j: usize = 0;
        while j < count
            invariant
                j <= count,
                count == pairs@.len(),
                sorted == member_models(pairs@),
                out@ == start + "{"@ + members_text(sorted, j as nat),
            decreases count - j,
        {
            if j > 0 {
                out.append(",");
            }
            let literal = quote(pairs[j].0.as_str());
            out.append(literal.as_str());
            out.append(":");
            out.append(pairs[j].1.as_str());
            assert(out@ =~= start + "{"@ + members_text(sorted, (j + 1) as nat));
            j = j + 1;
        }
        out.append("}");
        Ok(())
    }
}

/// Encodes a host value as the text of a JSON document. With `sort_keys`
/// given and true, every mapping of the value is written in canonical key
/// order; otherwise in the order in which the host iterates it.
pub fn dumps(ctx: &HostContext, obj: &HostValue, sort_keys: Option<bool>) -> (r: Result<
    String,
    HyperJsonError,
>)
    ensures
        match r {
            Ok(text) => encode_value(obj@, sort_keys == Some(true)) == Ok::<Seq<char>, ErrorModel>(
                text@,
            ),
            Err(e) => encode_value(obj@, sort_keys == Some(true)) == Err::<Seq<char>, ErrorModel>(
                e@,
            ),
        },
{
    let sort = match sort_keys {
        Some(sort) => sort,
        None => false,
    };
    let mut out = String::new();
    let value = SerializeHostValue::new(ctx, obj, sort);
    match value.emit(&mut out) {
        Ok(()) => {
            assert(out@ =~= encode_value(obj@, sort)->Ok_0);
            Ok(out)
        },
        Err(e) => Err(e),
    }
}

} // verus!
