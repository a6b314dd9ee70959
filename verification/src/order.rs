//! The order in which a canonical mapping lists its keys: that of their
//! UTF-8 bytes, read as unsigned numbers, the first difference deciding and a
//! proper prefix coming first.

use vstd::prelude::*;
use vstd::string::*;

verus! {

/// The bytes that write a text in UTF-8.
pub open spec fn text_bytes(text: Seq<char>) -> Seq<u8> {
    vstd::utf8::encode_utf8(text)
}

/// Whether `a` comes before `b`, given that the two agree on their first `i`
/// bytes.
pub open spec fn before_from(a: Seq<u8>, b: Seq<u8>, i: int) -> bool
    decreases a.len() - i,
{
    if i < 0 || i >= b.len() {
        false
    } else if i >= a.len() {
        true
    } else if a[i] != b[i] {
        a[i] < b[i]
    } else {
        before_from(a, b, i + 1)
    }
}

/// Whether `a` comes strictly before `b`.
pub open spec fn before(a: Seq<u8>, b: Seq<u8>) -> bool {
    before_from(a, b, 0)
}

/// Whether the text `a` comes strictly before the text `b`.
pub open spec fn text_before(a: Seq<char>, b: Seq<char>) -> bool {
    before(text_bytes(a), text_bytes(b))
}

/// The place of a key among members in ascending key order: that of the
/// first member, from `from` on, whose key does not come before it.
pub open spec fn place<V>(sorted: Seq<(Seq<char>, V)>, key: Seq<char>, from: int) -> int
    decreases sorted.len() - from,
{
    if 0 <= from < sorted.len() && text_before(sorted[from].0, key) {
        place(sorted, key, from + 1)
    } else {
        from
    }
}

/// Members in ascending key order with one more member put among them: in
/// the place of the member with the same key, where there is one, otherwise
/// before the first member whose key comes after its own.
pub open spec fn put<V>(sorted: Seq<(Seq<char>, V)>, member: (Seq<char>, V)) -> Seq<
    (Seq<char>, V),
> {
    let p = place(sorted, member.0, 0);
    if p < sorted.len() && text_bytes(sorted[p].0) == text_bytes(member.0) {
        sorted.update(p, member)
    } else {
        sorted.insert(p, member)
    }
}

/// The canonical form of a run of members: each put, in turn, among those
/// before it. The last of several members with one key is the one that stays.
pub open spec fn canonical<V>(members: Seq<(Seq<char>, V)>) -> Seq<(Seq<char>, V)>
    decreases members.len(),
{
    if members.len() == 0 {
        Seq::empty()
    } else {
        put(canonical(members.drop_last()), members.last())
    }
}

/// Whether the keys of a run of members ascend strictly.
pub open spec fn ascending<V>(members: Seq<(Seq<char>, V)>) -> bool {
    forall|i: int, j: int|
        0 <= i < j < members.len() ==> text_before(
            (#[trigger] members[i]).0,
            (#[trigger] members[j]).0,
        )
}

/// A run of members with each value replaced by what `f` makes of it.
pub open spec fn with_values<V, W>(members: Seq<(Seq<char>, V)>, f: spec_fn(V) -> W) -> Seq<
    (Seq<char>, W),
> {
    Seq::new(members.len(), |i: int| (members[i].0, f(members[i].1)))
}

proof fn lemma_place_of_values<V, W>(
    sorted: Seq<(Seq<char>, V)>,
    f: spec_fn(V) -> W,
    key: Seq<char>,
    from: int,
)
    requires
        0 <= from,
    ensures
        place(with_values(sorted, f), key, from) == place(sorted, key, from),
    decreases sorted.len() - from,
{
    if from < sorted.len() && text_before(sorted[from].0, key) {
        lemma_place_of_values(sorted, f, key, from + 1);
    }
}

/// The place of a key lies among the members or right after them.
pub proof fn lemma_place_is_within<V>(sorted: Seq<(Seq<char>, V)>, key: Seq<char>, from: int)
    requires
        0 <= from <= sorted.len(),
    ensures
        from <= place(sorted, key, from) <= sorted.len(),
    decreases sorted.len() - from,
{
    if from < sorted.len() && text_before(sorted[from].0, key) {
        lemma_place_is_within(sorted, key, from + 1);
    }
}

/// The canonical form looks at keys only: to replace the values and then
/// take the canonical form is to take the canonical form and then replace
/// the values.
pub proof fn lemma_canonical_of_values<V, W>(members: Seq<(Seq<char>, V)>, f: spec_fn(V) -> W)
    ensures
        canonical(with_values(members, f)) == with_values(canonical(members), f),
    decreases members.len(),
{
    if members.len() > 0 {
        let front = members.drop_last();
        let last = members.last();
        lemma_canonical_of_values(front, f);
        assert(with_values(members, f).drop_last() =~= with_values(front, f));
        let sorted = canonical(front);
        lemma_place_of_values(sorted, f, last.0, 0);
        lemma_place_is_within(sorted, last.0, 0);
        assert(put(with_values(sorted, f), (last.0, f(last.1))) =~= with_values(
            put(sorted, last),
            f,
        ));
    }
}

/// How one key stands to another.
#[derive(Clone, Copy, Debug, PartialEq, Eq, Structural)]
pub enum KeyOrder {
    Before,
    Same,
    After,
}

proof fn lemma_before_from_transitive(a: Seq<u8>, b: Seq<u8>, c: Seq<u8>, i: int)
    requires
        0 <= i,
        before_from(a, b, i),
        before_from(b, c, i),
    ensures
        before_from(a, c, i),
    decreases a.len() - i,
{
    if i < a.len() && a[i] == b[i] && b[i] == c[i] {
        lemma_before_from_transitive(a, b, c, i + 1);
    }
}

proof fn lemma_before_from_total(a: Seq<u8>, b: Seq<u8>, i: int)
    requires
        0 <= i <= a.len(),
        i <= b.len(),
        forall|k: int| 0 <= k < i ==> a[k] == b[k],
        a != b,
    ensures
        before_from(a, b, i) || before_from(b, a, i),
    decreases a.len() - i,
{
    if i < a.len() && i < b.len() {
        if a[i] == b[i] {
            lemma_before_from_total(a, b, i + 1);
        }
    } else if i == a.len() && i == b.len() {
        assert(a =~= b);
    }
}

proof fn lemma_before_from_asymmetric(a: Seq<u8>, b: Seq<u8>, i: int)
    requires
        0 <= i,
        before_from(a, b, i),
    ensures
        !before_from(b, a, i),
    decreases a.len() - i,
{
    if i < a.len() && i < b.len() && a[i] == b[i] {
        lemma_before_from_asymmetric(a, b, i + 1);
    }
}

/// The order is transitive.
pub proof fn lemma_before_transitive(a: Seq<u8>, b: Seq<u8>, c: Seq<u8>)
    requires
        before(a, b),
        before(b, c),
    ensures
        before(a, c),
{
    lemma_before_from_transitive(a, b, c, 0);
}

/// Of two different byte sequences one comes before the other.
pub proof fn lemma_before_total(a: Seq<u8>, b: Seq<u8>)
    requires
        a != b,
    ensures
        before(a, b) || before(b, a),
{
    lemma_before_from_total(a, b, 0);
}

/// No byte sequence comes before one that comes before it; none comes before
/// itself.
pub proof fn lemma_before_asymmetric(a: Seq<u8>, b: Seq<u8>)
    requires
        before(a, b),
    ensures
        !before(b, a),
        a != b,
{
    lemma_before_from_asymmetric(a, b, 0);
}

/// Finds how the text `a` stands to the text `b`.
pub fn compare(a: &str, b: &str) -> (r: KeyOrder)
    ensures
        r is Before <==> text_before(a@, b@),
        r is Same <==> text_bytes(a@) == text_bytes(b@),
        r is After <==> text_before(b@, a@),
{
    let x = a.as_bytes();
    let y = b.as_bytes();
    let n = x.len();
    let m = y.len();
    let mut i: usize = 0;
    while i < n && i < m && x[i] == y[i]
        invariant
            i <= n,
            i <= m,
            n == x@.len(),
            m == y@.len(),
            forall|k: int| 0 <= k < i ==> x@[k] == y@[k],
            before(x@, y@) == before_from(x@, y@, i as int),
            before(y@, x@) == before_from(y@, x@, i as int),
        decreases n - i,
    {
        i = i + 1;
    }
    if i == n && i == m {
        assert(x@ =~= y@);
        KeyOrder::Same
    } else if i == n {
        KeyOrder::Before
    } else if i == m {
        KeyOrder::After
    } else if x[i] < y[i] {
        KeyOrder::Before
    } else {
        KeyOrder::After
    }
}

} // verus!
