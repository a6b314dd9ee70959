//! What holds of the codec as a whole, stated over the models that the
//! contracts of its functions use, and proved from them.

use crate::decode::{
    all_text, decoded, hook_answers, input_decoded, keyed, lemma_plain_input, outcome_model,
    paired, plain_input, plain_number, plain_value, text_keyed, DecodeInput,
};
use crate::encode::{
    encode_entries, encode_items, encode_members, encode_value, joined, key_text, member_text,
    members_text, Member,
};
use crate::trusted::{text_reading, tree_of, written_string};
use crate::error::{ErrorModel, HyperJsonError};
use crate::host::{
    entry_models, in_key_order, item_models, lemma_entry_models, lemma_item_models, HostModel,
    HostValue, KeyModel, Observation,
};
use crate::tree::Json;
use crate::number::{
    all_digits, decimal, digit_char, digits_value, integer_literal, is_digit, signed_decimal,
    IntegerLiteral,
};
use crate::order::{
    ascending, canonical, lemma_before_asymmetric, lemma_before_total, lemma_before_transitive,
    lemma_canonical_of_values, place, put, text_before, text_bytes, with_values,
};
use vstd::prelude::*;

verus! {

/// Decoding is repeatable: without hooks, two outcomes of decoding one input
/// are the same value, or the same error.
pub proof fn lemma_decoding_is_repeatable<
    F: Fn(String) -> Result<HostValue, String>,
    G: Fn(String) -> Result<HostValue, String>,
>(
    input: DecodeInput,
    first: Result<HostValue, HyperJsonError>,
    second: Result<HostValue, HyperJsonError>,
)
    requires
        input_decoded(input, None::<F>, None::<G>, first),
        input_decoded(input, None::<F>, None::<G>, second),
    ensures
        outcome_model(first) == outcome_model(second),
{
    lemma_plain_input::<F, G>(input, first);
    lemma_plain_input::<F, G>(input, second);
}

/// Whether a hook answers one text in one way only.
pub open spec fn answers_in_one_way<H: Fn(String) -> Result<HostValue, String>>(hook: H) -> bool {
    forall|first: String, second: String, a: Result<HostValue, String>, b: Result<HostValue, String>|
        first@ == second@ && #[trigger] call_ensures(hook, (first,), a) && #[trigger] call_ensures(
            hook,
            (second,),
            b,
        ) ==> a == b
}

/// Whether a hook, where one is given, answers one text in one way only.
pub open spec fn hook_is_a_function<H: Fn(String) -> Result<HostValue, String>>(
    hook: Option<H>,
) -> bool {
    hook matches Some(h) ==> answers_in_one_way(h)
}

proof fn lemma_hook_answers_once<H: Fn(String) -> Result<HostValue, String>>(
    hook: H,
    literal: Seq<char>,
    first: HostValue,
    second: HostValue,
)
    requires
        hook_is_a_function(Some(hook)),
        hook_answers(hook, literal, Ok::<HostValue, String>(first)),
        hook_answers(hook, literal, Ok::<HostValue, String>(second)),
    ensures
        first == second,
{
    let s = choose|text: String|
        text@ == literal && #[trigger] call_ensures(
            hook,
            (text,),
            Ok::<HostValue, String>(first),
        );
    let t = choose|text: String|
        text@ == literal && #[trigger] call_ensures(
            hook,
            (text,),
            Ok::<HostValue, String>(second),
        );
    assert(s@ == t@);
    assert(answers_in_one_way(hook));
    assert(call_ensures(hook, (s,), Ok::<HostValue, String>(first)));
    assert(call_ensures(hook, (t,), Ok::<HostValue, String>(second)));
    assert(Ok::<HostValue, String>(first) == Ok::<HostValue, String>(second));
}

/// Decoding is repeatable with hooks too, as far as the hooks are: where each
/// hook answers one text in one way only, two host values of one document are
/// the same value.
pub proof fn lemma_decoding_follows_the_hooks<
    F: Fn(String) -> Result<HostValue, String>,
    G: Fn(String) -> Result<HostValue, String>,
>(tree: Json, parse_float: Option<F>, parse_int: Option<G>, first: HostValue, second: HostValue)
    requires
        hook_is_a_function(parse_float),
        hook_is_a_function(parse_int),
        decoded(tree, parse_float, parse_int, first),
        decoded(tree, parse_float, parse_int, second),
    ensures
        first@ == second@,
    decreases tree,
{
    match tree {
        Json::Number(literal) => {
            let to_float = match integer_literal(text_bytes(literal)) {
                IntegerLiteral::NotInteger => true,
                IntegerLiteral::Oversized => parse_int is None,
                _ => false,
            };
            if to_float {
                if let Some(h) = parse_float {
                    lemma_hook_answers_once(h, literal, first, second);
                }
            } else if let Some(h) = parse_int {
                lemma_hook_answers_once(h, literal, first, second);
            }
        },
        Json::Array(items) => {
            let a = first->List_0;
            let b = second->List_0;
            assert forall|i: int| 0 <= i < items.len() implies a@[i]@ == b@[i]@ by {
                lemma_decoding_follows_the_hooks(items[i], parse_float, parse_int, a@[i], b@[i]);
            }
            lemma_item_models(a@, a@.len());
            lemma_item_models(b@, b@.len());
            assert(item_models(a@, a@.len()) =~= item_models(b@, b@.len()));
        },
        Json::Object(members) => {
            let a = first->Mapping_0;
            let b = second->Mapping_0;
            let built_a = choose|built: Seq<HostValue>|
                {
                    &&& built.len() == members.len()
                    &&& forall|i: int|
                        0 <= i < members.len() ==> decoded(
                            (#[trigger] members[i]).1,
                            parse_float,
                            parse_int,
                            built[i],
                        )
                    &&& keyed(a@) == #[trigger] canonical(paired(members, built))
                };
            let built_b = choose|built: Seq<HostValue>|
                {
                    &&& built.len() == members.len()
                    &&& forall|i: int|
                        0 <= i < members.len() ==> decoded(
                            (#[trigger] members[i]).1,
                            parse_float,
                            parse_int,
                            built[i],
                        )
                    &&& keyed(b@) == #[trigger] canonical(paired(members, built))
                };
            let model = |v: HostValue| v@;
            assert forall|i: int| 0 <= i < members.len() implies built_a[i]@ == built_b[i]@ by {
                lemma_decoding_follows_the_hooks(
                    members[i].1,
                    parse_float,
                    parse_int,
                    built_a[i],
                    built_b[i],
                );
            }
            assert(with_values(paired(members, built_a), model) =~= with_values(
                paired(members, built_b),
                model,
            ));
            lemma_canonical_of_values(paired(members, built_a), model);
            lemma_canonical_of_values(paired(members, built_b), model);
            let shared = with_values(keyed(a@), model);
            assert(shared == with_values(keyed(b@), model));
            assert(shared.len() == a@.len() && shared.len() == b@.len());
            lemma_entry_models(a@, a@.len());
            lemma_entry_models(b@, b@.len());
            assert(entry_models(a@, a@.len()) =~= text_keyed(shared));
            assert(entry_models(b@, b@.len()) =~= text_keyed(shared));
        },
        _ => {},
    }
}

/// A boolean is written as `true` or `false`, whatever else the host reports
/// of it: a value that is no mapping, list, tuple or text and that reads as
/// a boolean is encoded as that boolean, also where it reads as a number.
pub proof fn lemma_boolean_is_never_a_number(obs: Observation, sort: bool)
    requires
        obs.mapping is None,
        obs.list is None,
        obs.tuple is None,
        obs.text is None,
        obs.boolean is Some,
    ensures
        HostValue::classify_spec(obs) == HostValue::Bool(obs.boolean->Some_0),
        encode_value(HostValue::classify_spec(obs)@, sort) == Ok::<Seq<char>, ErrorModel>(
            if obs.boolean->Some_0 {
                "true"@
            } else {
                "false"@
            },
        ),
{
}

/// Whether two runs of entries have, place for place, the same values under
/// keys with the same text.
pub open spec fn same_under_coercion(
    a: Seq<(KeyModel, HostModel)>,
    b: Seq<(KeyModel, HostModel)>,
) -> bool {
    &&& a.len() == b.len()
    &&& forall|i: int|
        0 <= i < a.len() ==> key_text((#[trigger] a[i]).0) == key_text(b[i].0) && a[i].1 == b[i].1
}

proof fn lemma_entries_under_coercion(
    a: Seq<(KeyModel, HostModel)>,
    b: Seq<(KeyModel, HostModel)>,
    n: nat,
)
    requires
        same_under_coercion(a, b),
        n <= a.len(),
    ensures
        encode_entries(a, n) == encode_entries(b, n),
        encode_members(a, n) == encode_members(b, n),
    decreases n,
{
    if n > 0 {
        lemma_entries_under_coercion(a, b, (n - 1) as nat);
        assert(key_text(a[n - 1].0) == key_text(b[n - 1].0));
    }
}

/// Only the text of a key is written: two mappings that have, place for
/// place, the same values under keys with the same text are encoded alike. A
/// mapping with the host's null and a boolean among its keys is encoded as
/// the mapping that has the texts `null`, `true` or `false` in their place.
pub proof fn lemma_keys_count_by_their_text(
    a: Seq<(KeyModel, HostModel)>,
    b: Seq<(KeyModel, HostModel)>,
    sort: bool,
)
    requires
        same_under_coercion(a, b),
    ensures
        encode_value(HostModel::Mapping(a), sort) == encode_value(HostModel::Mapping(b), sort),
{
    lemma_entries_under_coercion(a, b, a.len());
}

/// A run of entries with each key that has a text replaced by that text.
pub open spec fn with_text_keys(entries: Seq<(KeyModel, HostModel)>) -> Seq<(KeyModel, HostModel)> {
    Seq::new(
        entries.len(),
        |i: int|
            (
                match key_text(entries[i].0) {
                    Some(text) => KeyModel::Text(text),
                    None => entries[i].0,
                },
                entries[i].1,
            ),
    )
}

/// Coercing the keys beforehand changes nothing: a mapping is encoded as the
/// mapping that has, for each key with a text, that text as its key. So the
/// host's null as a key is the text `null`, and a boolean is `true` or
/// `false`.
pub proof fn lemma_coerced_keys_are_encoded_alike(entries: Seq<(KeyModel, HostModel)>, sort: bool)
    ensures
        encode_value(HostModel::Mapping(entries), sort) == encode_value(
            HostModel::Mapping(with_text_keys(entries)),
            sort,
        ),
        key_text(KeyModel::Null) == Some("null"@),
        key_text(KeyModel::Bool(true)) == Some("true"@),
        key_text(KeyModel::Bool(false)) == Some("false"@),
{
    lemma_keys_count_by_their_text(entries, with_text_keys(entries), sort);
}

/// A key without a text fails the mapping: where the entries before it can be
/// encoded, the error is that of the key.
pub proof fn lemma_key_without_text_fails(entries: Seq<(KeyModel, HostModel)>, at: int, sort: bool)
    requires
        0 <= at < entries.len(),
        key_text(entries[at].0) is None,
        if sort {
            encode_members(entries, at as nat) is Ok
        } else {
            encode_entries(entries, at as nat) is Ok
        },
    ensures
        encode_value(HostModel::Mapping(entries), sort) == Err::<Seq<char>, ErrorModel>(
            ErrorModel::KeyNotStringCoercible,
        ),
{
    if sort {
        crate::encode::lemma_members_error_stays(entries, (at + 1) as nat, entries.len());
    } else {
        crate::encode::lemma_entries_error_stays(entries, (at + 1) as nat, entries.len());
    }
}

proof fn lemma_place<V>(sorted: Seq<(Seq<char>, V)>, key: Seq<char>, from: int)
    requires
        0 <= from <= sorted.len(),
    ensures
        from <= place(sorted, key, from) <= sorted.len(),
        forall|i: int|
            from <= i < place(sorted, key, from) ==> text_before((#[trigger] sorted[i]).0, key),
        place(sorted, key, from) < sorted.len() ==> !text_before(
            sorted[place(sorted, key, from)].0,
            key,
        ),
    decreases sorted.len() - from,
{
    if from < sorted.len() && text_before(sorted[from].0, key) {
        lemma_place(sorted, key, from + 1);
    }
}

/// Putting a member among members whose keys ascend leaves the keys
/// ascending.
pub proof fn lemma_put_keeps_order<V>(sorted: Seq<(Seq<char>, V)>, member: (Seq<char>, V))
    requires
        ascending(sorted),
    ensures
        ascending(put(sorted, member)),
{
    let p = place(sorted, member.0, 0);
    let key = text_bytes(member.0);
    let next = put(sorted, member);
    lemma_place(sorted, member.0, 0);
    if p < sorted.len() && text_bytes(sorted[p].0) == key {
        assert forall|i: int, j: int| 0 <= i < j < next.len() implies text_before(
            (#[trigger] next[i]).0,
            (#[trigger] next[j]).0,
        ) by {
            if i != p && j != p {
                assert(text_before(sorted[i].0, sorted[j].0));
            } else if i == p {
                assert(text_before(sorted[p].0, sorted[j].0));
            } else {
                assert(text_before(sorted[i].0, member.0));
            }
        }
    } else {
        assert forall|i: int, j: int| 0 <= i < j < next.len() implies text_before(
            (#[trigger] next[i]).0,
            (#[trigger] next[j]).0,
        ) by {
            if j < p {
                assert(text_before(sorted[i].0, sorted[j].0));
            } else if j == p {
                assert(text_before(sorted[i].0, member.0));
            } else if i == p {
                lemma_before_total(text_bytes(sorted[p].0), key);
                if j - 1 > p {
                    assert(text_before(sorted[p].0, sorted[j - 1].0));
                    lemma_before_transitive(
                        key,
                        text_bytes(sorted[p].0),
                        text_bytes(sorted[j - 1].0),
                    );
                }
            } else if i < p {
                assert(text_before(sorted[i].0, sorted[j - 1].0));
            } else {
                assert(text_before(sorted[i - 1].0, sorted[j - 1].0));
            }
        }
    }
}

/// Canonical key order is ascending key order: the members of a mapping that
/// is written with sorted keys come in strictly ascending order of the bytes
/// of their keys, so that no key is written twice.
pub proof fn lemma_canonical_ascends<V>(members: Seq<(Seq<char>, V)>)
    ensures
        ascending(canonical(members)),
    decreases members.len(),
{
    if members.len() > 0 {
        lemma_canonical_ascends(members.drop_last());
        lemma_put_keeps_order(canonical(members.drop_last()), members.last());
    }
}

proof fn lemma_place_at_end<V>(sorted: Seq<(Seq<char>, V)>, key: Seq<char>, from: int)
    requires
        0 <= from <= sorted.len(),
        forall|i: int| from <= i < sorted.len() ==> text_before((#[trigger] sorted[i]).0, key),
    ensures
        place(sorted, key, from) == sorted.len(),
    decreases sorted.len() - from,
{
    if from < sorted.len() {
        assert(text_before(sorted[from].0, key));
        lemma_place_at_end(sorted, key, from + 1);
    }
}

/// Members whose keys already ascend are their own canonical form: asking
/// for sorted keys then changes nothing in how they are written.
pub proof fn lemma_canonical_of_ascending<V>(members: Seq<(Seq<char>, V)>)
    requires
        ascending(members),
    ensures
        canonical(members) == members,
    decreases members.len(),
{
    if members.len() > 0 {
        let front = members.drop_last();
        let last = members.last();
        assert forall|i: int, j: int| 0 <= i < j < front.len() implies text_before(
            (#[trigger] front[i]).0,
            (#[trigger] front[j]).0,
        ) by {
            assert(text_before(members[i].0, members[j].0));
        }
        lemma_canonical_of_ascending(front);
        assert forall|i: int| 0 <= i < front.len() implies text_before(
            (#[trigger] front[i]).0,
            last.0,
        ) by {
            assert(text_before(members[i].0, members[members.len() - 1].0));
        }
        lemma_place_at_end(front, last.0, 0);
        assert(put(front, last) =~= members);
    }
}

/// Whether two members have the same key.
pub open spec fn same_key<V>(a: (Seq<char>, V), b: (Seq<char>, V)) -> bool {
    text_bytes(a.0) == text_bytes(b.0)
}

/// Whether the member at `i` is the last of a run with its key.
pub open spec fn is_last_of_its_key<V>(members: Seq<(Seq<char>, V)>, i: int) -> bool {
    forall|j: int| i < j < members.len() ==> !same_key(#[trigger] members[j], members[i])
}

/// Putting a member among members whose keys ascend keeps every member but
/// the one with the same key, and adds the member that is put.
pub proof fn lemma_put_contents<V>(sorted: Seq<(Seq<char>, V)>, member: (Seq<char>, V))
    requires
        ascending(sorted),
    ensures
        forall|x: (Seq<char>, V)|
            #[trigger] put(sorted, member).contains(x) <==> x == member || (sorted.contains(x)
                && !same_key(x, member)),
{
    let p = place(sorted, member.0, 0);
    let key = text_bytes(member.0);
    let next = put(sorted, member);
    lemma_place(sorted, member.0, 0);
    assert forall|k: int| 0 <= k < sorted.len() && k != p implies !same_key(
        #[trigger] sorted[k],
        member,
    ) by {
        if k < p {
            assert(text_before(sorted[k].0, member.0));
            lemma_before_asymmetric(text_bytes(sorted[k].0), key);
        } else {
            assert(text_before(sorted[p].0, sorted[k].0));
            if text_bytes(sorted[p].0) != key {
                lemma_before_total(text_bytes(sorted[p].0), key);
                lemma_before_transitive(key, text_bytes(sorted[p].0), text_bytes(sorted[k].0));
                lemma_before_asymmetric(key, text_bytes(sorted[k].0));
            } else {
                lemma_before_asymmetric(text_bytes(sorted[p].0), text_bytes(sorted[k].0));
            }
        }
    }
    let replaces = p < sorted.len() && text_bytes(sorted[p].0) == key;
    assert(next[p] == member);
    assert forall|x: (Seq<char>, V)| #[trigger] next.contains(x) implies x == member || (sorted.contains(x)
        && !same_key(x, member)) by {
        let i = choose|i: int| 0 <= i < next.len() && next[i] == x;
        if i != p {
            let k = if replaces || i < p {
                i
            } else {
                i - 1
            };
            assert(sorted[k] == x);
            if !replaces && k == p {
                assert(!same_key(sorted[k], member));
            } else {
                assert(k != p);
                assert(!same_key(sorted[k], member));
            }
        }
    }
    assert forall|x: (Seq<char>, V)|
        x == member || (sorted.contains(x) && !same_key(x, member)) implies #[trigger] next.contains(
        x,
    ) by {
        if x != member {
            let k = choose|k: int| 0 <= k < sorted.len() && sorted[k] == x;
            let i = if replaces || k < p {
                k
            } else {
                k + 1
            };
            assert(next[i] == x);
        }
    }
}

/// The canonical form of a run of members holds, of the members with one
/// key, the last and no other: a later member replaces an earlier one.
pub proof fn lemma_canonical_keeps_the_last<V>(members: Seq<(Seq<char>, V)>)
    ensures
        forall|x: (Seq<char>, V)| #[trigger]
            canonical(members).contains(x) <==> exists|i: int|
                0 <= i < members.len() && #[trigger] members[i] == x && is_last_of_its_key(
                    members,
                    i,
                ),
    decreases members.len(),
{
    if members.len() == 0 {
        assert forall|x: (Seq<char>, V)| !(#[trigger] canonical(members).contains(x)) by {}
    } else {
        let front = members.drop_last();
        let last = members.last();
        let end = members.len() - 1;
        lemma_canonical_keeps_the_last(front);
        lemma_canonical_ascends(front);
        lemma_put_contents(canonical(front), last);
        assert forall|x: (Seq<char>, V)| #[trigger] canonical(members).contains(x) implies exists|i: int|
            0 <= i < members.len() && #[trigger] members[i] == x && is_last_of_its_key(
                members,
                i,
            ) by {
            if x == last {
                assert(members[end] == x && is_last_of_its_key(members, end));
            } else {
                assert(canonical(front).contains(x));
                let i = choose|i: int|
                    0 <= i < front.len() && #[trigger] front[i] == x && is_last_of_its_key(
                        front,
                        i,
                    );
                assert forall|j: int| i < j < members.len() implies !same_key(
                    #[trigger] members[j],
                    members[i],
                ) by {
                    if j < end {
                        assert(!same_key(front[j], front[i]));
                    }
                }
                assert(members[i] == x && is_last_of_its_key(members, i));
            }
        }
        assert forall|x: (Seq<char>, V)|
            (exists|i: int|
                0 <= i < members.len() && #[trigger] members[i] == x && is_last_of_its_key(
                    members,
                    i,
                )) implies #[trigger] canonical(members).contains(x) by {
            let i = choose|i: int|
                0 <= i < members.len() && #[trigger] members[i] == x && is_last_of_its_key(
                    members,
                    i,
                );
            if i < end {
                assert(!same_key(members[end], members[i]));
                assert forall|j: int| i < j < front.len() implies !same_key(
                    #[trigger] front[j],
                    front[i],
                ) by {
                    assert(!same_key(members[j], members[i]));
                }
                assert(front[i] == x && is_last_of_its_key(front, i));
                assert(canonical(front).contains(x));
            }
        }
    }
}

/// Each member of a run has, at its place or after it, the last member with
/// its key.
proof fn lemma_a_last_of_each_key<V>(members: Seq<(Seq<char>, V)>, i: int) -> (last: int)
    requires
        0 <= i < members.len(),
    ensures
        i <= last < members.len(),
        same_key(members[last], members[i]),
        is_last_of_its_key(members, last),
    decreases members.len() - i,
{
    if is_last_of_its_key(members, i) {
        i
    } else {
        let j = choose|j: int| i < j < members.len() && same_key(#[trigger] members[j], members[i]);
        let last = lemma_a_last_of_each_key(members, j);
        assert forall|k: int| last < k < members.len() implies !same_key(
            #[trigger] members[k],
            members[last],
        ) by {}
        last
    }
}

/// Whether `value` is a host value for the last member of an object that has
/// the key `key`.
pub open spec fn is_built_from_the_last<
    F: Fn(String) -> Result<HostValue, String>,
    G: Fn(String) -> Result<HostValue, String>,
>(
    members: Seq<(Seq<char>, Json)>,
    parse_float: Option<F>,
    parse_int: Option<G>,
    key: Seq<char>,
    value: HostValue,
) -> bool {
    exists|i: int|
        {
            &&& 0 <= i < members.len()
            &&& (#[trigger] members[i]).0 == key
            &&& is_last_of_its_key(members, i)
            &&& decoded(members[i].1, parse_float, parse_int, value)
        }
}

/// Whether a key is among the keys of a run of entries.
pub open spec fn has_key(entries: Seq<(Seq<char>, HostValue)>, key: Seq<char>) -> bool {
    exists|j: int| 0 <= j < entries.len() && text_bytes((#[trigger] entries[j]).0) == text_bytes(key)
}

/// On duplicate keys the last write wins: the mapping that is built for an
/// object has text keys only, in strictly ascending order, so none of them
/// twice; the key of every member is among them; and the value under a key is
/// a host value for the last member with that key.
pub proof fn lemma_the_last_member_wins<
    F: Fn(String) -> Result<HostValue, String>,
    G: Fn(String) -> Result<HostValue, String>,
>(members: Seq<(Seq<char>, Json)>, parse_float: Option<F>, parse_int: Option<G>, out: HostValue)
    requires
        decoded(Json::Object(members), parse_float, parse_int, out),
    ensures
        out matches HostValue::Mapping(entries) && all_text(entries@) && ascending(keyed(entries@)),
        forall|j: int|
            0 <= j < out->Mapping_0@.len() ==> is_built_from_the_last(
                members,
                parse_float,
                parse_int,
                (#[trigger] keyed(out->Mapping_0@)[j]).0,
                keyed(out->Mapping_0@)[j].1,
            ),
        forall|i: int|
            0 <= i < members.len() ==> has_key(keyed(out->Mapping_0@), (#[trigger] members[i]).0),
{
    let entries = out->Mapping_0;
    let built = choose|built: Seq<HostValue>|
        {
            &&& built.len() == members.len()
            &&& forall|i: int|
                0 <= i < members.len() ==> decoded(
                    (#[trigger] members[i]).1,
                    parse_float,
                    parse_int,
                    built[i],
                )
            &&& keyed(entries@) == #[trigger] canonical(paired(members, built))
        };
    let pairs = paired(members, built);
    let sorted = keyed(entries@);
    lemma_canonical_ascends(pairs);
    lemma_canonical_keeps_the_last(pairs);
    assert forall|i: int| 0 <= i < pairs.len() && is_last_of_its_key(pairs, i) implies
        is_last_of_its_key(members, i) by {
        assert forall|j: int| i < j < members.len() implies !same_key(
            #[trigger] members[j],
            members[i],
        ) by {
            assert(!same_key(pairs[j], pairs[i]));
        }
    }
    assert forall|j: int| 0 <= j < entries@.len() implies is_built_from_the_last(
        members,
        parse_float,
        parse_int,
        (#[trigger] sorted[j]).0,
        sorted[j].1,
    ) by {
        assert(sorted.contains(sorted[j]));
        let i = choose|i: int|
            0 <= i < pairs.len() && #[trigger] pairs[i] == sorted[j] && is_last_of_its_key(
                pairs,
                i,
            );
        assert(members[i].0 == sorted[j].0);
        assert(decoded(members[i].1, parse_float, parse_int, sorted[j].1));
    }
    assert forall|i: int| 0 <= i < members.len() implies has_key(
        sorted,
        (#[trigger] members[i]).0,
    ) by {
        let last = lemma_a_last_of_each_key(pairs, i);
        assert(pairs[last] == pairs[last] && is_last_of_its_key(pairs, last));
        assert(sorted.contains(pairs[last]));
        let j = choose|j: int| 0 <= j < sorted.len() && sorted[j] == pairs[last];
        assert(text_bytes(sorted[j].0) == text_bytes(members[i].0));
    }
}

proof fn lemma_members_text_of_prefix(a: Seq<Member>, b: Seq<Member>, n: nat)
    requires
        n <= a.len(),
        n <= b.len(),
        forall|i: int| 0 <= i < n ==> a[i] == b[i],
    ensures
        members_text(a, n) == members_text(b, n),
    decreases n,
{
    if n > 0 {
        lemma_members_text_of_prefix(a, b, (n - 1) as nat);
    }
}

proof fn lemma_items_alike(items: Seq<HostModel>, n: nat)
    requires
        n <= items.len(),
        forall|i: int|
            0 <= i < items.len() ==> encode_value(#[trigger] items[i], true) == encode_value(
                items[i],
                false,
            ),
    ensures
        encode_items(items, true, n) == encode_items(items, false, n),
    decreases n,
{
    if n > 0 {
        lemma_items_alike(items, (n - 1) as nat);
        assert(encode_value(items[n - 1], true) == encode_value(items[n - 1], false));
    }
}

proof fn lemma_members_follow_entries(entries: Seq<(KeyModel, HostModel)>, n: nat)
    requires
        n <= entries.len(),
        forall|i: int| 0 <= i < entries.len() ==> (#[trigger] entries[i]).0 is Text,
        forall|i: int|
            0 <= i < entries.len() ==> encode_value((#[trigger] entries[i]).1, true)
                == encode_value(entries[i].1, false),
    ensures
        match encode_entries(entries, n) {
            Ok(body) => {
                &&& encode_members(entries, n) matches Ok(members)
                &&& members.len() == n
                &&& forall|i: int| 0 <= i < n ==> (#[trigger] members[i]).0 == entries[i].0->Text_0
                &&& members_text(members, n) == body
            },
            Err(e) => encode_members(entries, n) == Err::<Seq<Member>, ErrorModel>(e),
        },
    decreases n,
{
    if n > 0 {
        lemma_members_follow_entries(entries, (n - 1) as nat);
        assert(entries[n - 1].0 is Text);
        assert(encode_value(entries[n - 1].1, true) == encode_value(entries[n - 1].1, false));
        if let Ok(body) = encode_entries(entries, n) {
            let front = encode_members(entries, (n - 1) as nat)->Ok_0;
            let members = encode_members(entries, n)->Ok_0;
            assert(members == front.push(members[n - 1]));
            lemma_members_text_of_prefix(members, front, (n - 1) as nat);
        }
    }
}

/// Asking for sorted keys changes nothing in how a value is encoded whose
/// mappings are in key order already. What the decoder hands out is such a
/// value.
pub proof fn lemma_sorting_keeps_what_is_in_key_order(value: HostModel)
    requires
        in_key_order(value),
    ensures
        encode_value(value, true) == encode_value(value, false),
    decreases value,
{
    match value {
        HostModel::List(items) => {
            assert forall|i: int| 0 <= i < items.len() implies encode_value(
                #[trigger] items[i],
                true,
            ) == encode_value(items[i], false) by {
                lemma_sorting_keeps_what_is_in_key_order(items[i]);
            }
            lemma_items_alike(items, items.len());
        },
        HostModel::Tuple(items) => {
            assert forall|i: int| 0 <= i < items.len() implies encode_value(
                #[trigger] items[i],
                true,
            ) == encode_value(items[i], false) by {
                lemma_sorting_keeps_what_is_in_key_order(items[i]);
            }
            lemma_items_alike(items, items.len());
        },
        HostModel::Mapping(entries) => {
            assert forall|i: int| 0 <= i < entries.len() implies encode_value(
                (#[trigger] entries[i]).1,
                true,
            ) == encode_value(entries[i].1, false) by {
                lemma_sorting_keeps_what_is_in_key_order(entries[i].1);
            }
            lemma_members_follow_entries(entries, entries.len());
            if let Ok(members) = encode_members(entries, entries.len()) {
                assert forall|i: int, j: int| 0 <= i < j < members.len() implies text_before(
                    (#[trigger] members[i]).0,
                    (#[trigger] members[j]).0,
                ) by {
                    assert(text_before(entries[i].0->Text_0, entries[j].0->Text_0));
                }
                lemma_canonical_of_ascending(members);
            }
        },
        _ => {},
    }
}

proof fn lemma_digits_agree(a: Seq<u8>, b: Seq<u8>, start: int, end: int, shift: int)
    requires
        0 <= start <= end <= a.len(),
        0 <= start + shift,
        end + shift <= b.len(),
        forall|i: int| start <= i < end ==> a[i] == b[i + shift],
    ensures
        digits_value(a, start, end) == digits_value(b, start + shift, end + shift),
    decreases end - start,
{
    if start < end {
        lemma_digits_agree(a, b, start, end - 1, shift);
    }
}

proof fn lemma_digit_char(d: nat)
    requires
        d < 10,
    ensures
        digit_char(d) as u8 == 0x30 + d,
        '\0' <= digit_char(d) <= '\u{7f}',
{
}

/// The decimal text of a number is ASCII digits that write the number.
proof fn lemma_decimal(n: nat)
    ensures
        decimal(n).len() >= 1,
        vstd::utf8::is_ascii_chars(decimal(n)),
        text_bytes(decimal(n)).len() == decimal(n).len(),
        all_digits(text_bytes(decimal(n)), 0, decimal(n).len() as int),
        digits_value(text_bytes(decimal(n)), 0, decimal(n).len() as int) == n,
    decreases n,
{
    let text = decimal(n);
    if n < 10 {
        lemma_digit_char(n);
        assert(vstd::utf8::is_ascii_chars(text));
        vstd::utf8::is_ascii_chars_encode_utf8(text);
        let bytes = text_bytes(text);
        assert(bytes[0] == text[0] as u8);
        assert(is_digit(bytes[0]));
        assert(digits_value(bytes, 0, 1) == digits_value(bytes, 0, 0) * 10 + (bytes[0] - 0x30));
    } else {
        let front = decimal(n / 10);
        lemma_decimal(n / 10);
        lemma_digit_char(n % 10);
        assert(text == front.push(digit_char(n % 10)));
        assert forall|i: int| 0 <= i < text.len() implies '\0' <= #[trigger] text[i]
            <= '\u{7f}' by {
            if i < front.len() {
                assert(text[i] == front[i]);
            }
        }
        vstd::utf8::is_ascii_chars_encode_utf8(text);
        vstd::utf8::is_ascii_chars_encode_utf8(front);
        let bytes = text_bytes(text);
        let front_bytes = text_bytes(front);
        let k = front.len() as int;
        assert forall|i: int| 0 <= i < k implies front_bytes[i] == bytes[i + 0] by {
            assert(front[i] == text[i]);
            assert(front_bytes[i] == front[i] as u8);
            assert(bytes[i] == text[i] as u8);
        }
        lemma_digits_agree(front_bytes, bytes, 0, k, 0);
        assert(bytes[k] == text[k] as u8);
        assert(is_digit(bytes[k]));
        assert forall|i: int| 0 <= i < text.len() implies is_digit(#[trigger] bytes[i]) by {
            if i < k {
                assert(front_bytes[i] == bytes[i + 0]);
                assert(is_digit(front_bytes[i]));
            }
        }
        assert(digits_value(bytes, 0, k + 1) == digits_value(bytes, 0, k) * 10 + (bytes[k] - 0x30));
    }
}

/// An integer that the encoder writes is read back as itself: the decimal
/// text of an unsigned machine integer is the literal of that integer.
pub proof fn lemma_unsigned_round_trip(n: u64)
    ensures
        integer_literal(text_bytes(decimal(n as nat))) == IntegerLiteral::Unsigned(n),
        plain_number(decimal(n as nat)) == HostModel::Unsigned(n),
{
    lemma_decimal(n as nat);
}

/// An integer that the encoder writes is read back as itself: the decimal
/// text of a signed machine integer is the literal of that integer, which is
/// held unsigned where it is not negative.
pub proof fn lemma_signed_round_trip(n: i64)
    ensures
        n >= 0 ==> plain_number(signed_decimal(n as int)) == HostModel::Unsigned(n as u64),
        n < 0 ==> plain_number(signed_decimal(n as int)) == HostModel::Signed(n),
{
    if n >= 0 {
        lemma_decimal(n as nat);
    } else {
        let magnitude = (-n) as nat;
        let digits = decimal(magnitude);
        let text = signed_decimal(n as int);
        lemma_decimal(magnitude);
        assert(text == seq!['-'] + digits);
        assert forall|i: int| 0 <= i < text.len() implies '\0' <= #[trigger] text[i]
            <= '\u{7f}' by {
            if i > 0 {
                assert(text[i] == digits[i - 1]);
            }
        }
        vstd::utf8::is_ascii_chars_encode_utf8(text);
        vstd::utf8::is_ascii_chars_encode_utf8(digits);
        let bytes = text_bytes(text);
        let digit_bytes = text_bytes(digits);
        let k = digits.len() as int;
        assert(bytes[0] == text[0] as u8);
        assert(bytes[0] == 0x2d);
        assert forall|i: int| 0 <= i < k implies digit_bytes[i] == bytes[i + 1] by {
            assert(digits[i] == text[i + 1]);
            assert(digit_bytes[i] == digits[i] as u8);
            assert(bytes[i + 1] == text[i + 1] as u8);
        }
        lemma_digits_agree(digit_bytes, bytes, 0, k, 1);
        assert forall|i: int| 1 <= i < text.len() implies is_digit(#[trigger] bytes[i]) by {
            assert(digit_bytes[i - 1] == bytes[(i - 1) + 1]);
            assert(is_digit(digit_bytes[i - 1]));
        }
        assert(!is_digit(bytes[0]));
    }
}

/// Whether a value has a document: it holds no value without a shape on the
/// wire, and every key of its mappings has a text.
pub open spec fn has_document(value: HostModel) -> bool
    decreases value,
{
    match value {
        HostModel::List(items) => forall|i: int|
            0 <= i < items.len() ==> has_document(#[trigger] items[i]),
        HostModel::Tuple(items) => forall|i: int|
            0 <= i < items.len() ==> has_document(#[trigger] items[i]),
        HostModel::Mapping(entries) => forall|i: int|
            0 <= i < entries.len() ==> key_text((#[trigger] entries[i]).0) is Some && has_document(
                entries[i].1,
            ),
        HostModel::Other { .. } => false,
        _ => true,
    }
}

/// The tree of the document that is written for a value without sorted keys:
/// a number by its text, a list or a tuple as an array, a mapping as an
/// object with a member for each entry, under the text of the entry's key.
pub open spec fn document_of(value: HostModel) -> Json
    decreases value,
{
    match value {
        HostModel::Null => Json::Null,
        HostModel::Bool(b) => Json::Bool(b),
        HostModel::Unsigned(n) => Json::Number(decimal(n as nat)),
        HostModel::Signed(n) => Json::Number(signed_decimal(n as int)),
        HostModel::Float(text) => Json::Number(text),
        HostModel::Text(s) => Json::Text(s),
        HostModel::List(items) => Json::Array(documents_of(items, items.len())),
        HostModel::Tuple(items) => Json::Array(documents_of(items, items.len())),
        HostModel::Mapping(entries) => Json::Object(members_of_entries(entries, entries.len())),
        HostModel::Other { .. } => Json::Null,
    }
}

/// The trees of the documents of the first `n` of a run of values.
pub open spec fn documents_of(items: Seq<HostModel>, n: nat) -> Seq<Json>
    decreases items, n,
{
    if n == 0 || n > items.len() {
        Seq::empty()
    } else {
        documents_of(items, (n - 1) as nat).push(document_of(items[n - 1]))
    }
}

/// The members that are written for the first `n` of a run of entries.
pub open spec fn members_of_entries(entries: Seq<(KeyModel, HostModel)>, n: nat) -> Seq<
    (Seq<char>, Json),
>
    decreases entries, n,
{
    if n == 0 || n > entries.len() {
        Seq::empty()
    } else {
        members_of_entries(entries, (n - 1) as nat).push(
            (key_text(entries[n - 1].0)->Some_0, document_of(entries[n - 1].1)),
        )
    }
}

/// A value as it is read back from its document: an integer that is not
/// negative as an unsigned one, a float by what its text is as a literal, a
/// tuple as a list, and a mapping with the texts of its keys as keys, each
/// once, in ascending order, under each the value of the last entry with
/// that key.
pub open spec fn read_back(value: HostModel) -> HostModel
    decreases value,
{
    match value {
        HostModel::Signed(n) => if n >= 0 {
            HostModel::Unsigned(n as u64)
        } else {
            HostModel::Signed(n)
        },
        HostModel::Float(text) => plain_number(text),
        HostModel::List(items) => HostModel::List(read_back_items(items, items.len())),
        HostModel::Tuple(items) => HostModel::List(read_back_items(items, items.len())),
        HostModel::Mapping(entries) => HostModel::Mapping(
            text_keyed(canonical(read_back_pairs(entries, entries.len()))),
        ),
        other => other,
    }
}

/// The first `n` of a run of values as they are read back.
pub open spec fn read_back_items(items: Seq<HostModel>, n: nat) -> Seq<HostModel>
    decreases items, n,
{
    if n == 0 || n > items.len() {
        Seq::empty()
    } else {
        read_back_items(items, (n - 1) as nat).push(read_back(items[n - 1]))
    }
}

/// The first `n` of a run of entries as they are read back, each under the
/// text of its key.
pub open spec fn read_back_pairs(entries: Seq<(KeyModel, HostModel)>, n: nat) -> Seq<
    (Seq<char>, HostModel),
>
    decreases entries, n,
{
    if n == 0 || n > entries.len() {
        Seq::empty()
    } else {
        read_back_pairs(entries, (n - 1) as nat).push(
            (key_text(entries[n - 1].0)->Some_0, read_back(entries[n - 1].1)),
        )
    }
}

proof fn lemma_documents_of(items: Seq<HostModel>, n: nat)
    requires
        n <= items.len(),
    ensures
        documents_of(items, n).len() == n,
        read_back_items(items, n).len() == n,
        forall|i: int| 0 <= i < n ==> #[trigger] documents_of(items, n)[i] == document_of(items[i]),
        forall|i: int| 0 <= i < n ==> #[trigger] read_back_items(items, n)[i] == read_back(items[i]),
    decreases n,
{
    if n > 0 {
        lemma_documents_of(items, (n - 1) as nat);
    }
}

proof fn lemma_members_of_entries(entries: Seq<(KeyModel, HostModel)>, n: nat)
    requires
        n <= entries.len(),
    ensures
        members_of_entries(entries, n).len() == n,
        read_back_pairs(entries, n).len() == n,
        forall|i: int|
            0 <= i < n ==> #[trigger] members_of_entries(entries, n)[i] == (
                key_text(entries[i].0)->Some_0,
                document_of(entries[i].1),
            ),
        forall|i: int|
            0 <= i < n ==> #[trigger] read_back_pairs(entries, n)[i] == (
                key_text(entries[i].0)->Some_0,
                read_back(entries[i].1),
            ),
    decreases n,
{
    if n > 0 {
        lemma_members_of_entries(entries, (n - 1) as nat);
    }
}

/// The codec's own half of the round trip: what the decoder makes, without
/// hooks, of the tree of a value's document is the value as it is read back.
/// Which tree `serde_json` reads from the text of the document is no part of
/// this law.
pub proof fn lemma_a_document_is_read_back(value: HostModel)
    requires
        has_document(value),
    ensures
        plain_value(document_of(value)) == read_back(value),
    decreases value,
{
    match value {
        HostModel::Unsigned(n) => {
            lemma_unsigned_round_trip(n);
        },
        HostModel::Signed(n) => {
            lemma_signed_round_trip(n);
        },
        HostModel::List(items) => {
            lemma_documents_in_turn(items);
        },
        HostModel::Tuple(items) => {
            lemma_documents_in_turn(items);
        },
        HostModel::Mapping(entries) => {
            let members = members_of_entries(entries, entries.len());
            lemma_members_of_entries(entries, entries.len());
            crate::decode::lemma_plain_pairs(members, members.len());
            assert forall|i: int| 0 <= i < entries.len() implies plain_value(
                document_of(entries[i].1),
            ) == read_back(entries[i].1) by {
                assert(has_document(entries[i].1));
                lemma_a_document_is_read_back(entries[i].1);
            }
            assert(crate::decode::plain_pairs(members, members.len()) =~= read_back_pairs(
                entries,
                entries.len(),
            ));
        },
        _ => {},
    }
}

proof fn lemma_documents_in_turn(items: Seq<HostModel>)
    requires
        forall|i: int| 0 <= i < items.len() ==> has_document(#[trigger] items[i]),
    ensures
        crate::decode::plain_items(documents_of(items, items.len()), items.len())
            == read_back_items(items, items.len()),
        documents_of(items, items.len()).len() == items.len(),
    decreases items, 0nat,
{
    let trees = documents_of(items, items.len());
    lemma_documents_of(items, items.len());
    crate::decode::lemma_plain_items(trees, trees.len());
    assert forall|i: int| 0 <= i < items.len() implies plain_value(document_of(items[i]))
        == read_back(items[i]) by {
        lemma_a_document_is_read_back(items[i]);
    }
    assert(crate::decode::plain_items(trees, trees.len()) =~= read_back_items(
        items,
        items.len(),
    ));
}

/// The text that writes a tree: a number by its literal, a string as its
/// string literal, an array between square brackets and an object between
/// braces, commas between their parts and a colon after each key.
pub open spec fn written(tree: Json) -> Seq<char>
    decreases tree,
{
    match tree {
        Json::Null => "null"@,
        Json::Bool(b) => if b {
            "true"@
        } else {
            "false"@
        },
        Json::Number(literal) => literal,
        Json::Text(s) => written_string(s),
        Json::Array(items) => "["@ + written_items(items, items.len()) + "]"@,
        Json::Object(members) => "{"@ + written_members(members, members.len()) + "}"@,
    }
}

/// The text that writes the first `n` elements of an array.
pub open spec fn written_items(items: Seq<Json>, n: nat) -> Seq<char>
    decreases items, n,
{
    if n == 0 || n > items.len() {
        Seq::empty()
    } else {
        joined(written_items(items, (n - 1) as nat), written(items[n - 1]), n == 1)
    }
}

/// The text that writes the first `n` members of an object.
pub open spec fn written_members(members: Seq<(Seq<char>, Json)>, n: nat) -> Seq<char>
    decreases members, n,
{
    if n == 0 || n > members.len() {
        Seq::empty()
    } else {
        joined(
            written_members(members, (n - 1) as nat),
            member_text((members[n - 1].0, written(members[n - 1].1))),
            n == 1,
        )
    }
}

proof fn lemma_items_are_written(items: Seq<HostModel>, n: nat)
    requires
        n <= items.len(),
        encode_items(items, false, n) is Ok,
    ensures
        encode_items(items, false, n) == Ok::<Seq<char>, ErrorModel>(
            written_items(documents_of(items, items.len()), n),
        ),
    decreases items, n,
{
    if n > 0 {
        lemma_documents_of(items, items.len());
        lemma_items_are_written(items, (n - 1) as nat);
        lemma_the_document_is_written(items[n - 1]);
    }
}

proof fn lemma_entries_are_written(entries: Seq<(KeyModel, HostModel)>, n: nat)
    requires
        n <= entries.len(),
        encode_entries(entries, n) is Ok,
    ensures
        encode_entries(entries, n) == Ok::<Seq<char>, ErrorModel>(
            written_members(members_of_entries(entries, entries.len()), n),
        ),
    decreases entries, n,
{
    if n > 0 {
        lemma_members_of_entries(entries, entries.len());
        lemma_entries_are_written(entries, (n - 1) as nat);
        lemma_the_document_is_written(entries[n - 1].1);
    }
}

/// The encoder's half of the round trip: the document that is written for a
/// value, without sorted keys, is the text that writes the tree of the
/// value's document.
pub proof fn lemma_the_document_is_written(value: HostModel)
    requires
        encode_value(value, false) is Ok,
    ensures
        encode_value(value, false) == Ok::<Seq<char>, ErrorModel>(written(document_of(value))),
    decreases value, 0nat,
{
    match value {
        HostModel::List(items) => {
            lemma_documents_of(items, items.len());
            lemma_items_are_written(items, items.len());
        },
        HostModel::Tuple(items) => {
            lemma_documents_of(items, items.len());
            lemma_items_are_written(items, items.len());
        },
        HostModel::Mapping(entries) => {
            lemma_members_of_entries(entries, entries.len());
            lemma_entries_are_written(entries, entries.len());
        },
        _ => {},
    }
}

/// Whether a value is in the form in which the decoder hands values out: its
/// integers unsigned where they are not negative, its floats no machine
/// integers as literals, no tuple and no value without a shape in it, and
/// its mappings with text keys only, in strictly ascending order.
pub open spec fn is_as_decoded(value: HostModel) -> bool
    decreases value,
{
    match value {
        HostModel::Signed(n) => n < 0,
        HostModel::Float(text) => plain_number(text) == HostModel::Float(text),
        HostModel::List(items) => forall|i: int|
            0 <= i < items.len() ==> is_as_decoded(#[trigger] items[i]),
        HostModel::Tuple(_) => false,
        HostModel::Mapping(entries) => {
            &&& forall|i: int|
                0 <= i < entries.len() ==> (#[trigger] entries[i]).0 is Text && is_as_decoded(
                    entries[i].1,
                )
            &&& forall|i: int, j: int|
                0 <= i < j < entries.len() ==> text_before(
                    (#[trigger] entries[i]).0->Text_0,
                    (#[trigger] entries[j]).0->Text_0,
                )
        },
        HostModel::Other { .. } => false,
        _ => true,
    }
}

/// A value in the form in which the decoder hands values out has a document
/// and is read back as itself.
pub proof fn lemma_decoded_values_stay(value: HostModel)
    requires
        is_as_decoded(value),
    ensures
        has_document(value),
        read_back(value) == value,
    decreases value,
{
    match value {
        HostModel::List(items) => {
            lemma_documents_of(items, items.len());
            assert forall|i: int| 0 <= i < items.len() implies has_document(#[trigger] items[i])
                && read_back(items[i]) == items[i] by {
                lemma_decoded_values_stay(items[i]);
            }
            assert(read_back_items(items, items.len()) =~= items);
        },
        HostModel::Mapping(entries) => {
            lemma_members_of_entries(entries, entries.len());
            let pairs = read_back_pairs(entries, entries.len());
            assert forall|i: int| 0 <= i < entries.len() implies key_text(
                (#[trigger] entries[i]).0,
            ) is Some && has_document(entries[i].1) && pairs[i] == (
                entries[i].0->Text_0,
                entries[i].1,
            ) by {
                lemma_decoded_values_stay(entries[i].1);
            }
            assert forall|i: int, j: int| 0 <= i < j < pairs.len() implies text_before(
                (#[trigger] pairs[i]).0,
                (#[trigger] pairs[j]).0,
            ) by {
                assert(text_before(entries[i].0->Text_0, entries[j].0->Text_0));
            }
            lemma_canonical_of_ascending(pairs);
            assert(text_keyed(pairs) =~= entries);
        },
        _ => {},
    }
}

/// The round trip, as far as it is the codec's own: a value in the form in
/// which the decoder hands values out is what the decoder makes, without
/// hooks, of the tree of its document.
pub proof fn lemma_round_trip_of_the_tree(value: HostModel)
    requires
        is_as_decoded(value),
    ensures
        plain_value(document_of(value)) == value,
{
    lemma_decoded_values_stay(value);
    lemma_a_document_is_read_back(value);
}

/// The round trip, given what is `serde_json`'s part in it: where
/// `serde_json` reads, from the document that is written for a value, the
/// tree that the document writes and nothing after it, the document is
/// decoded, without hooks, to the value again, for a value in the form in
/// which the decoder hands values out.
pub proof fn lemma_round_trip_where_the_tree_is_read(
    value: HostModel,
    input: DecodeInput,
    read: serde_json::Value,
)
    requires
        is_as_decoded(value),
        input.text matches Some(text) && encode_value(value, false) == Ok::<
            Seq<char>,
            ErrorModel,
        >(text@) && text_reading(text@) == Ok::<
            (serde_json::Value, Option<serde_json::Error>),
            serde_json::Error,
        >((read, None)),
        tree_of(read) == document_of(value),
    ensures
        written(document_of(value)) == input.text->Some_0@,
        plain_input(input) == Ok::<HostModel, ErrorModel>(value),
{
    lemma_the_document_is_written(value);
    lemma_round_trip_of_the_tree(value);
}

} // verus!
