//! Insertion-ordered maps keyed by strings.
//!
//! The model of such a map is a sequence of key/value pairs in insertion
//! order. The executable maps are `indexmap::IndexMap`s; what each operation
//! does to the sequence is stated here and taken on trust from that crate.

use indexmap::IndexMap;
use vstd::prelude::*;

verus! {

/// A key with its optional value, as character sequences.
pub type Pair = (Seq<char>, Option<Seq<char>>);

/// Index of the first pair of `s` whose key is `k`, or `s.len()` if there is none.
pub open spec fn position<V>(s: Seq<(Seq<char>, V)>, k: Seq<char>) -> nat
    decreases s.len(),
{
    if s.len() == 0 || s[0].0 == k {
        0
    } else {
        1 + position(s.drop_first(), k)
    }
}

/// Whether some pair of `s` has the key `k`.
pub open spec fn has_key<V>(s: Seq<(Seq<char>, V)>, k: Seq<char>) -> bool {
    position(s, k) < s.len()
}

/// `s` after storing `v` under `k`: an existing key keeps its place and
/// takes the new value, a new key goes to the end.
pub open spec fn put<V>(s: Seq<(Seq<char>, V)>, k: Seq<char>, v: V) -> Seq<(Seq<char>, V)> {
    if has_key(s, k) {
        s.update(position(s, k) as int, (k, v))
    } else {
        s.push((k, v))
    }
}

/// `s` without the pair stored under `k`; the pairs behind it move up.
pub open spec fn delete<V>(s: Seq<(Seq<char>, V)>, k: Seq<char>) -> Seq<(Seq<char>, V)> {
    if has_key(s, k) {
        s.remove(position(s, k) as int)
    } else {
        s
    }
}

/// Whether no key occurs twice in `s`.
pub open spec fn distinct_keys<V>(s: Seq<(Seq<char>, V)>) -> bool {
    forall|i: int, j: int| 0 <= i < j < s.len() ==> (#[trigger] s[i]).0 != (#[trigger] s[j]).0
}

/// The view of an optional string.
pub open spec fn value_view(v: Option<String>) -> Option<Seq<char>> {
    match v {
        Some(s) => Some(s@),
        None => None,
    }
}

pub proof fn lemma_position_bounds<V>(s: Seq<(Seq<char>, V)>, k: Seq<char>)
    ensures
        position(s, k) <= s.len(),
        position(s, k) < s.len() ==> s[position(s, k) as int].0 == k,
        forall|i: int| 0 <= i < position(s, k) ==> (#[trigger] s[i]).0 != k,
    decreases s.len(),
{
    if s.len() == 0 || s[0].0 == k {
    } else {
        let t = s.drop_first();
        lemma_position_bounds(t, k);
        assert forall|i: int| 0 <= i < position(s, k) implies (#[trigger] s[i]).0 != k by {
            if i > 0 {
                assert(s[i] == t[i - 1]);
            }
        }
    }
}

/// `position` is the least index holding the key.
pub proof fn lemma_position_is<V>(s: Seq<(Seq<char>, V)>, k: Seq<char>, r: int)
    requires
        0 <= r <= s.len(),
        forall|i: int| 0 <= i < r ==> (#[trigger] s[i]).0 != k,
        r < s.len() ==> s[r].0 == k,
    ensures
        position(s, k) == r,
    decreases s.len(),
{
    if s.len() == 0 {
    } else if r == 0 {
    } else {
        let t = s.drop_first();
        assert(s[0].0 != k);
        assert forall|i: int| 0 <= i < r - 1 implies (#[trigger] t[i]).0 != k by {
            assert(t[i] == s[i + 1]);
        }
        lemma_position_is(t, k, r - 1);
    }
}

/// Storing a pair keeps the keys distinct, keeps every other key where it
/// was, and makes the stored value the one found under the key.
pub proof fn lemma_put<V>(s: Seq<(Seq<char>, V)>, k: Seq<char>, v: V)
    ensures
        has_key(put(s, k, v), k),
        put(s, k, v)[position(put(s, k, v), k) as int] == (k, v),
        position(put(s, k, v), k) == position(s, k),
        distinct_keys(s) ==> distinct_keys(put(s, k, v)),
        forall|o: Seq<char>| o != k ==> position(put(s, k, v), o) == if has_key(s, o) {
            position(s, o)
        } else {
            put(s, k, v).len()
        },
        forall|o: Seq<char>|
            o != k && has_key(s, o) ==> put(s, k, v)[position(s, o) as int] == s[position(
                s,
                o,
            ) as int],
{
    let t = put(s, k, v);
    lemma_position_bounds(s, k);
    let p = position(s, k) as int;
    assert forall|i: int| 0 <= i < p implies (#[trigger] t[i]).0 != k by {
        assert(t[i] == s[i]);
    }
    lemma_position_is(t, k, p);
    if distinct_keys(s) {
        assert forall|i: int, j: int| 0 <= i < j < t.len() implies (#[trigger] t[i]).0 != (
        #[trigger] t[j]).0 by {
            if has_key(s, k) {
                assert(t[i].0 == s[i].0);
                assert(t[j].0 == s[j].0);
            } else {
                if j < s.len() {
                    assert(t[i] == s[i] && t[j] == s[j]);
                } else {
                    assert(t[i] == s[i]);
                }
            }
        }
    }
    assert forall|o: Seq<char>| o != k implies position(t, o) == if has_key(s, o) {
        position(s, o)
    } else {
        t.len()
    } by {
        lemma_position_bounds(s, o);
        let q = position(s, o) as int;
        assert forall|i: int| 0 <= i < q implies (#[trigger] t[i]).0 != o by {
            if i < s.len() {
                assert(t[i].0 == s[i].0);
            }
        }
        if q < s.len() {
            assert(t[q].0 == s[q].0);
            lemma_position_is(t, o, q);
        } else {
            assert forall|i: int| 0 <= i < t.len() implies (#[trigger] t[i]).0 != o by {
                if i < s.len() {
                    assert(t[i].0 == s[i].0);
                }
            }
            lemma_position_is(t, o, t.len() as int);
        }
    }
    assert forall|o: Seq<char>| o != k && has_key(s, o) implies t[position(s, o) as int]
        == s[position(s, o) as int] by {
        lemma_position_bounds(s, o);
    }
}

/// Deleting a key keeps the keys distinct and, where they were distinct,
/// leaves the key absent.
pub proof fn lemma_delete<V>(s: Seq<(Seq<char>, V)>, k: Seq<char>)
    ensures
        distinct_keys(s) ==> distinct_keys(delete(s, k)),
        distinct_keys(s) ==> !has_key(delete(s, k), k),
        delete(s, k).len() == if has_key(s, k) {
            s.len() - 1
        } else {
            s.len() as int
        },
{
    let t = delete(s, k);
    lemma_position_bounds(s, k);
    let p = position(s, k) as int;
    if distinct_keys(s) {
        assert forall|i: int, j: int| 0 <= i < j < t.len() implies (#[trigger] t[i]).0 != (
        #[trigger] t[j]).0 by {
            if has_key(s, k) {
                let a = if i < p { i } else { i + 1 };
                let b = if j < p { j } else { j + 1 };
                assert(t[i] == s[a] && t[j] == s[b]);
            }
        }
        assert forall|i: int| 0 <= i < t.len() implies (#[trigger] t[i]).0 != k by {
            if has_key(s, k) {
                let a = if i < p { i } else { i + 1 };
                assert(t[i] == s[a]);
                assert(s[p].0 == k);
                if a < p {
                    assert(s[a].0 != s[p].0);
                } else {
                    assert(s[p].0 != s[a].0);
                }
            }
        }
        lemma_position_is(t, k, t.len() as int);
    }
}

#[verifier::external_type_specification]
#[verifier::external_body]
#[verifier::reject_recursive_types(K)]
#[verifier::reject_recursive_types(V)]
#[verifier::reject_recursive_types(S)]
pub struct ExIndexMap<K, V, S>(IndexMap<K, V, S>);

/// The pairs that a map from keys to optional values holds, in its order.
pub uninterp spec fn body_entries(m: IndexMap<String, Option<String>>) -> Seq<(Seq<char>, Option<Seq<char>>)>;

/// The named bodies that a map of sections holds, in its order.
pub uninterp spec fn section_bodies(m: IndexMap<String, IndexMap<String, Option<String>>>) -> Seq<(Seq<char>, Seq<(Seq<char>, Option<Seq<char>>)>)>;

/// `IndexMap::new`: a map that holds nothing.
#[verifier::external_body]
pub(crate) fn body_new() -> (m: IndexMap<String, Option<String>>)
    ensures
        body_entries(m) == Seq::<Pair>::empty(),
{
    IndexMap::new()
}

/// `IndexMap::len`: the number of pairs held.
#[verifier::external_body]
pub(crate) fn body_len(m: &IndexMap<String, Option<String>>) -> (n: usize)
    ensures
        n == body_entries(*m).len(),
{
    m.len()
}

/// `IndexMap::insert`: a key already present keeps its place and gets the
/// new value; a new key is added last.
#[verifier::external_body]
pub(crate) fn body_insert(
    m: &mut IndexMap<String, Option<String>>,
    key: String,
    value: Option<String>,
)
    ensures
        body_entries(*final(m)) == put(body_entries(*old(m)), key@, value_view(value)),
{
    m.insert(key, value);
}

/// `IndexMap::get`: the value stored under `key`, if the key is present.
#[verifier::external_body]
pub(crate) fn body_get<'a>(m: &'a IndexMap<String, Option<String>>, key: &str) -> (r: Option<
    &'a Option<String>,
>)
    ensures
        r is Some <==> has_key(body_entries(*m), key@),
        r matches Some(v) ==> value_view(*v) == body_entries(*m)[position(
            body_entries(*m),
            key@,
        ) as int].1,
{
    m.get(key)
}

/// `IndexMap::get_index`: the pair at position `i`, if `i` is in range.
#[verifier::external_body]
pub(crate) fn body_get_index<'a>(m: &'a IndexMap<String, Option<String>>, i: usize) -> (r: Option<
    (&'a String, &'a Option<String>),
>)
    ensures
        r is Some <==> i < body_entries(*m).len(),
        r matches Some(p) ==> (p.0@, value_view(*p.1)) == body_entries(*m)[i as int],
{
    m.get_index(i)
}

/// `IndexMap::shift_remove`: removes the pair stored under `key`, moving the
/// pairs behind it up by one, and says whether there was one.
#[verifier::external_body]
pub(crate) fn body_shift_remove(m: &mut IndexMap<String, Option<String>>, key: &str) -> (r:
    Option<Option<String>>)
    ensures
        body_entries(*final(m)) == delete(body_entries(*old(m)), key@),
        r is Some <==> has_key(body_entries(*old(m)), key@),
{
    m.shift_remove(key)
}

/// `IndexMap::new`: a map that holds nothing.
#[verifier::external_body]
pub(crate) fn sections_new() -> (m: IndexMap<String, IndexMap<String, Option<String>>>)
    ensures
        section_bodies(m) == Seq::<(Seq<char>, Seq<Pair>)>::empty(),
{
    IndexMap::new()
}

/// `IndexMap::len`: the number of sections held.
#[verifier::external_body]
pub(crate) fn sections_len(m: &IndexMap<String, IndexMap<String, Option<String>>>) -> (n: usize)
    ensures
        n == section_bodies(*m).len(),
{
    m.len()
}

/// `IndexMap::insert`: a name already present keeps its place and gets the
/// new body; a new name is added last.
#[verifier::external_body]
pub(crate) fn sections_insert(
    m: &mut IndexMap<String, IndexMap<String, Option<String>>>,
    name: String,
    body: IndexMap<String, Option<String>>,
)
    ensures
        section_bodies(*final(m)) == put(section_bodies(*old(m)), name@, body_entries(body)),
{
    m.insert(name, body);
}

/// `IndexMap::get_index_of`: the position of `name`, if it is present.
#[verifier::external_body]
pub(crate) fn sections_get_index_of(
    m: &IndexMap<String, IndexMap<String, Option<String>>>,
    name: &str,
) -> (r: Option<usize>)
    ensures
        r is Some <==> has_key(section_bodies(*m), name@),
        r matches Some(i) ==> i == position(section_bodies(*m), name@),
{
    m.get_index_of(name)
}

/// `IndexMap::get_index`: the name and body at position `i`, if `i` is in range.
#[verifier::external_body]
pub(crate) fn sections_get_index<'a>(
    m: &'a IndexMap<String, IndexMap<String, Option<String>>>,
    i: usize,
) -> (r: Option<(&'a String, &'a IndexMap<String, Option<String>>)>)
    ensures
        r is Some <==> i < section_bodies(*m).len(),
        r matches Some(p) ==> (p.0@, body_entries(*p.1)) == section_bodies(*m)[i as int],
{
    m.get_index(i)
}

/// `IndexMap`'s `IndexMut<usize>::index_mut`: the body at position `i`, for
/// changing in place. The name and every other section stay as they are.
#[verifier::external_body]
pub(crate) fn sections_at_mut(
    m: &mut IndexMap<String, IndexMap<String, Option<String>>>,
    i: usize,
) -> (body: &mut IndexMap<String, Option<String>>)
    requires
        i < section_bodies(*old(m)).len(),
    ensures
        body_entries(*body) == section_bodies(*old(m))[i as int].1,
        section_bodies(*final(m)) == section_bodies(*old(m)).update(
            i as int,
            (section_bodies(*old(m))[i as int].0, body_entries(*final(body))),
        ),
{
    &mut m[i]
}

} // verus!
