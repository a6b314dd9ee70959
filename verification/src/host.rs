//! The host runtime's values as this codec sees them.
//!
//! A host value is dynamically typed and owned by a runtime that the codec
//! does not control. Inside the codec it is a closed variant, [`HostValue`];
//! the embedding turns what the runtime reports of one of its values (an
//! [`Observation`]) into that variant through [`HostValue::classify`], which
//! fixes the order in which the possible shapes are tried.

use crate::order::text_before;
use vstd::prelude::*;

verus! {

/// Evidence that the caller holds exclusive access to the host runtime's
/// shared execution context. Every entry point of the codec takes one; the
/// codec neither acquires nor releases the access that it stands for.
#[derive(Debug)]
pub struct HostContext {
    _held: (),
}

impl HostContext {
    /// States that the calling thread holds the host's execution context for
    /// as long as the returned value lives.
    pub fn new() -> (ctx: HostContext) {
        HostContext { _held: () }
    }
}

/// What the host reports of a mapping key, each probe on its own.
#[derive(Debug, PartialEq)]
pub struct KeyObservation {
    /// The key is the host's null value.
    pub is_null: bool,
    /// The key read as a host boolean, where it is one.
    pub boolean: Option<bool>,
    /// The key's own text coercion, where it has one.
    pub text: Option<String>,
}

/// A mapping key as the encoder will treat it.
#[derive(Debug, PartialEq)]
pub enum HostKey {
    /// The host's null value.
    Null,
    /// A host boolean.
    Bool(bool),
    /// Any other key, by its text coercion.
    Text(String),
    /// A key that is neither null nor a boolean and has no text coercion.
    Other,
}

/// Mathematical model of a [`HostKey`].
pub enum KeyModel {
    Null,
    Bool(bool),
    Text(Seq<char>),
    Other,
}

impl View for HostKey {
    type V = KeyModel;

    open spec fn view(&self) -> KeyModel {
        match self {
            HostKey::Null => KeyModel::Null,
            HostKey::Bool(b) => KeyModel::Bool(*b),
            HostKey::Text(s) => KeyModel::Text(s@),
            HostKey::Other => KeyModel::Other,
        }
    }
}

impl Clone for HostKey {
    /// A copy of the key.
    fn clone(&self) -> (copy: HostKey)
        ensures
            copy@ == self@,
    {
        match self {
            HostKey::Null => HostKey::Null,
            HostKey::Bool(b) => HostKey::Bool(*b),
            HostKey::Text(s) => HostKey::Text(s.clone()),
            HostKey::Other => HostKey::Other,
        }
    }
}

impl HostKey {
    /// The key that an observation stands for. The probes are tried in a
    /// fixed order and the first that answers wins: null, then boolean, then
    /// the text coercion.
    pub open spec fn classify_spec(obs: KeyObservation) -> HostKey {
        if obs.is_null {
            HostKey::Null
        } else if let Some(b) = obs.boolean {
            HostKey::Bool(b)
        } else if let Some(s) = obs.text {
            HostKey::Text(s)
        } else {
            HostKey::Other
        }
    }

    /// Turns what the host reports of a key into the key itself.
    pub fn classify(obs: KeyObservation) -> (key: HostKey)
        ensures
            key == Self::classify_spec(obs),
    {
        if obs.is_null {
            HostKey::Null
        } else if let Some(b) = obs.boolean {
            HostKey::Bool(b)
        } else if let Some(s) = obs.text {
            HostKey::Text(s)
        } else {
            HostKey::Other
        }
    }
}

/// A host value in the closed form that the codec works on.
#[derive(Debug, PartialEq)]
pub enum HostValue {
    /// The host's canonical null value.
    Null,
    /// A host boolean.
    Bool(bool),
    /// An integer that fits an unsigned 64-bit machine integer.
    Unsigned(u64),
    /// An integer that fits a signed 64-bit machine integer.
    Signed(i64),
    /// A floating-point number, by the text that writes it: a JSON number
    /// where it is finite, otherwise one of `NaN`, `Infinity` and `-Infinity`.
    Float(String),
    /// A text value.
    Text(String),
    /// An ordered, index-addressable sequence.
    List(Vec<HostValue>),
    /// A fixed-size ordered collection.
    Tuple(Vec<HostValue>),
    /// A mapping, its entries in the order in which the host iterates them.
    Mapping(Vec<(HostKey, HostValue)>),
    /// A value of no shape that the wire format has. `handle` is the token
    /// by which the embedding finds the value again; `repr` is the host's
    /// printable form of the value, where it has one.
    Other { handle: u64, repr: Option<String>, kind_name: String },
}

/// Mathematical model of a [`HostValue`].
pub enum HostModel {
    Null,
    Bool(bool),
    Unsigned(u64),
    Signed(i64),
    Float(Seq<char>),
    Text(Seq<char>),
    List(Seq<HostModel>),
    Tuple(Seq<HostModel>),
    Mapping(Seq<(KeyModel, HostModel)>),
    Other { handle: u64, repr: Option<Seq<char>>, kind_name: Seq<char> },
}

/// The models of the first `n` of a sequence of host values, one for one.
pub open spec fn item_models(items: Seq<HostValue>, n: nat) -> Seq<HostModel>
    decreases items, n,
{
    if n == 0 || n > items.len() {
        Seq::empty()
    } else {
        item_models(items, (n - 1) as nat).push(model_of(items[n - 1]))
    }
}

/// The models of the first `n` of a mapping's entries, one for one.
pub open spec fn entry_models(entries: Seq<(HostKey, HostValue)>, n: nat) -> Seq<
    (KeyModel, HostModel),
>
    decreases entries, n,
{
    if n == 0 || n > entries.len() {
        Seq::empty()
    } else {
        entry_models(entries, (n - 1) as nat).push((entries[n - 1].0@, model_of(entries[n - 1].1)))
    }
}

/// The mathematical model of a host value: the same tree, with sequences for
/// vectors and character sequences for strings.
pub open spec fn model_of(value: HostValue) -> HostModel
    decreases value,
{
    match value {
        HostValue::Null => HostModel::Null,
        HostValue::Bool(b) => HostModel::Bool(b),
        HostValue::Unsigned(n) => HostModel::Unsigned(n),
        HostValue::Signed(n) => HostModel::Signed(n),
        HostValue::Float(text) => HostModel::Float(text@),
        HostValue::Text(s) => HostModel::Text(s@),
        HostValue::List(items) => HostModel::List(item_models(items@, items@.len())),
        HostValue::Tuple(items) => HostModel::Tuple(item_models(items@, items@.len())),
        HostValue::Mapping(entries) => HostModel::Mapping(entry_models(entries@, entries@.len())),
        HostValue::Other { handle, repr, kind_name } => HostModel::Other {
            handle,
            repr: match repr {
                Some(s) => Some(s@),
                None => None,
            },
            kind_name: kind_name@,
        },
    }
}

/// Whether every mapping of a value has text keys only, in strictly
/// ascending order, so that none has a key twice.
pub open spec fn in_key_order(value: HostModel) -> bool
    decreases value,
{
    match value {
        HostModel::List(items) => forall|i: int|
            0 <= i < items.len() ==> in_key_order(#[trigger] items[i]),
        HostModel::Tuple(items) => forall|i: int|
            0 <= i < items.len() ==> in_key_order(#[trigger] items[i]),
        HostModel::Mapping(entries) => {
            &&& forall|i: int|
                0 <= i < entries.len() ==> (#[trigger] entries[i]).0 is Text && in_key_order(
                    entries[i].1,
                )
            &&& forall|i: int, j: int|
                0 <= i < j < entries.len() ==> text_before(
                    (#[trigger] entries[i]).0->Text_0,
                    (#[trigger] entries[j]).0->Text_0,
                )
        },
        _ => true,
    }
}

impl View for HostValue {
    type V = HostModel;

    open spec fn view(&self) -> HostModel {
        model_of(*self)
    }
}

/// The models of a prefix are as many as the prefix is long, and the model at
/// each place is that of the value at that place.
pub proof fn lemma_item_models(items: Seq<HostValue>, n: nat)
    requires
        n <= items.len(),
    ensures
        item_models(items, n).len() == n,
        forall|i: int| 0 <= i < n ==> #[trigger] item_models(items, n)[i] == items[i]@,
    decreases n,
{
    if n > 0 {
        lemma_item_models(items, (n - 1) as nat);
    }
}

/// The models of a prefix of entries are as many as the prefix is long, and
/// the model at each place is that of the entry at that place.
pub proof fn lemma_entry_models(entries: Seq<(HostKey, HostValue)>, n: nat)
    requires
        n <= entries.len(),
    ensures
        entry_models(entries, n).len() == n,
        forall|i: int|
            0 <= i < n ==> #[trigger] entry_models(entries, n)[i] == (entries[i].0@, entries[i].1@),
    decreases n,
{
    if n > 0 {
        lemma_entry_models(entries, (n - 1) as nat);
    }
}

impl Clone for HostValue {
    /// A copy of the value, node for node.
    fn clone(&self) -> (copy: HostValue)
        ensures
            copy@ == self@,
        decreases *self,
    {
        match self {
            HostValue::Null => HostValue::Null,
            HostValue::Bool(b) => HostValue::Bool(*b),
            HostValue::Unsigned(n) => HostValue::Unsigned(*n),
            HostValue::Signed(n) => HostValue::Signed(*n),
            HostValue::Float(text) => HostValue::Float(text.clone()),
            HostValue::Text(s) => HostValue::Text(s.clone()),
            HostValue::List(items) => {
                proof {
                    assert(decreases_to!(*self => self->List_0));
                }
                HostValue::List(copy_items(items))
            },
            HostValue::Tuple(items) => {
                proof {
                    assert(decreases_to!(*self => self->Tuple_0));
                }
                HostValue::Tuple(copy_items(items))
            },
            HostValue::Mapping(entries) => {
                proof {
                    assert(decreases_to!(*self => self->Mapping_0));
                }
                HostValue::Mapping(copy_entries(entries))
            },
            HostValue::Other { handle, repr, kind_name } => HostValue::Other {
                handle: *handle,
                repr: match repr {
                    Some(text) => Some(text.clone()),
                    None => None,
                },
                kind_name: kind_name.clone(),
            },
        }
    }
}

/// Copies a run of values, node for node.
fn copy_items(items: &Vec<HostValue>) -> (copy: Vec<HostValue>)
    ensures
        item_models(copy@, copy@.len()) == item_models(items@, items@.len()),
    decreases *items,
{
    let mut copy: Vec<HostValue> = Vec::new();
    let len = items.len();
    let mut i: usize = 0;
    while i < len
        invariant
            i <= len,
            len == items@.len(),
            copy@.len() == i,
            forall|k: int| 0 <= k < i ==> (#[trigger] copy@[k])@ == items@[k]@,
        decreases len - i,
    {
        proof {
            vstd::std_specs::vec::axiom_vec_index_decreases(*items, i as int);
        }
        copy.push(items[i].clone());
        i = i + 1;
    }
    proof {
        lemma_item_models(copy@, copy@.len());
        lemma_item_models(items@, items@.len());
        assert(item_models(copy@, copy@.len()) =~= item_models(items@, items@.len()));
    }
    copy
}

/// Copies a run of entries, node for node.
fn copy_entries(entries: &Vec<(HostKey, HostValue)>) -> (copy: Vec<(HostKey, HostValue)>)
    ensures
        entry_models(copy@, copy@.len()) == entry_models(entries@, entries@.len()),
    decreases *entries,
{
    let mut copy: Vec<(HostKey, HostValue)> = Vec::new();
    let len = entries.len();
    let mut i: usize = 0;
    while i < len
        invariant
            i <= len,
            len == entries@.len(),
            copy@.len() == i,
            forall|k: int|
                0 <= k < i ==> (#[trigger] copy@[k]).0@ == entries@[k].0@ && copy@[k].1@
                    == entries@[k].1@,
        decreases len - i,
    {
        proof {
            vstd::std_specs::vec::axiom_vec_index_decreases(*entries, i as int);
            assert(decreases_to!(entries@[i as int] => entries@[i as int].1));
        }
        copy.push((entries[i].0.clone(), entries[i].1.clone()));
        i = i + 1;
    }
    proof {
        lemma_entry_models(copy@, copy@.len());
        lemma_entry_models(entries@, entries@.len());
        assert(entry_models(copy@, copy@.len()) =~= entry_models(entries@, entries@.len()));
    }
    copy
}

/// What the host reports of one of its values, each probe on its own. Several
/// probes may answer for one value: a host in which booleans are integers
/// reports a boolean as both.
#[derive(Debug, PartialEq)]
pub struct Observation {
    /// The entries, where the value is mapping-like.
    pub mapping: Option<Vec<(HostKey, HostValue)>>,
    /// The items, where the value is list-like.
    pub list: Option<Vec<HostValue>>,
    /// The items, where the value is a fixed-size ordered collection.
    pub tuple: Option<Vec<HostValue>>,
    /// The value read as text.
    pub text: Option<String>,
    /// The value read as a boolean.
    pub boolean: Option<bool>,
    /// The value read as a floating-point number, by the text that writes it.
    pub float: Option<String>,
    /// The value read as an unsigned 64-bit integer.
    pub unsigned: Option<u64>,
    /// The value read as a signed 64-bit integer.
    pub signed: Option<i64>,
    /// The value is the host's null value.
    pub is_null: bool,
    /// The token by which the embedding finds the value again.
    pub handle: u64,
    /// The host's printable form of the value, where it has one.
    pub repr: Option<String>,
    /// The name of the value's host type.
    pub kind_name: String,
}

impl HostValue {
    /// The value that an observation stands for. The shapes are tried in a
    /// fixed order and the first that answers wins: mapping, list, tuple,
    /// text, boolean, float, unsigned integer, signed integer, null. A value
    /// for which none answers has no shape on the wire.
    pub open spec fn classify_spec(obs: Observation) -> HostValue {
        if let Some(entries) = obs.mapping {
            HostValue::Mapping(entries)
        } else if let Some(items) = obs.list {
            HostValue::List(items)
        } else if let Some(items) = obs.tuple {
            HostValue::Tuple(items)
        } else if let Some(s) = obs.text {
            HostValue::Text(s)
        } else if let Some(b) = obs.boolean {
            HostValue::Bool(b)
        } else if let Some(text) = obs.float {
            HostValue::Float(text)
        } else if let Some(n) = obs.unsigned {
            HostValue::Unsigned(n)
        } else if let Some(n) = obs.signed {
            HostValue::Signed(n)
        } else if obs.is_null {
            HostValue::Null
        } else {
            HostValue::Other { handle: obs.handle, repr: obs.repr, kind_name: obs.kind_name }
        }
    }

    /// Turns what the host reports of a value into the value itself.
    pub fn classify(obs: Observation) -> (value: HostValue)
        ensures
            value == Self::classify_spec(obs),
    {
        if let Some(entries) = obs.mapping {
            HostValue::Mapping(entries)
        } else if let Some(items) = obs.list {
            HostValue::List(items)
        } else if let Some(items) = obs.tuple {
            HostValue::Tuple(items)
        } else if let Some(s) = obs.text {
            HostValue::Text(s)
        } else if let Some(b) = obs.boolean {
            HostValue::Bool(b)
        } else if let Some(text) = obs.float {
            HostValue::Float(text)
        } else if let Some(n) = obs.unsigned {
            HostValue::Unsigned(n)
        } else if let Some(n) = obs.signed {
            HostValue::Signed(n)
        } else if obs.is_null {
            HostValue::Null
        } else {
            HostValue::Other { handle: obs.handle, repr: obs.repr, kind_name: obs.kind_name }
        }
    }
}

} // verus!
