//! The ordered map that holds the header entries: `indexmap::IndexMap` from a
//! lowercased name to the spans of its values, behind the contracts relied on.
use vstd::prelude::*;

use indexmap::IndexMap;

verus! {

#[verifier::external_type_specification]
#[verifier::external_body]
#[verifier::reject_recursive_types(K)]
#[verifier::reject_recursive_types(V)]
#[verifier::reject_recursive_types(S)]
pub struct ExIndexMap<K, V, S>(IndexMap<K, V, S>);

/// A byte range `(start, end)` of the message.
pub type Span = (usize, usize);

/// The map from a header name to the spans of its values.
pub type SpanMap = IndexMap<String, Vec<Span>>;

/// The entries of the map, in their order: each key with its value.
pub uninterp spec fn map_entries(m: SpanMap) -> Seq<(Seq<char>, Seq<Span>)>;

/// The first index whose key is `k`, from `i` on, or the length where none is.
pub open spec fn key_index_from(e: Seq<(Seq<char>, Seq<Span>)>, k: Seq<char>, i: int) -> int
    decreases e.len() - i,
{
    if i < 0 || i >= e.len() {
        e.len() as int
    } else if e[i].0 == k {
        i
    } else {
        key_index_from(e, k, i + 1)
    }
}

/// The index of the entry with key `k`, or the length where none is.
pub open spec fn key_index(e: Seq<(Seq<char>, Seq<Span>)>, k: Seq<char>) -> int {
    key_index_from(e, k, 0)
}

/// Relies on `IndexMap::new`: a map with no entries.
#[verifier::external_body]
pub(crate) fn map_new() -> (m: SpanMap)
    ensures
        map_entries(m) == Seq::<(Seq<char>, Seq<Span>)>::empty(),
{
    IndexMap::new()
}

/// Relies on `IndexMap::len`: the number of entries.
#[verifier::external_body]
pub(crate) fn map_len(m: &SpanMap) -> (r: usize)
    ensures
        r == map_entries(*m).len(),
{
    m.len()
}

/// Relies on `IndexMap::is_empty`: whether there is no entry.
#[verifier::external_body]
pub(crate) fn map_is_empty(m: &SpanMap) -> (r: bool)
    ensures
        r == (map_entries(*m).len() == 0),
{
    m.is_empty()
}

/// Relies on `IndexMap::get`: the value stored under an equal key, if any.
/// Keys of an `IndexMap` are unique, so that entry is the first with the key.
#[verifier::external_body]
pub(crate) fn map_get<'m>(m: &'m SpanMap, key: &str) -> (r: Option<&'m Vec<Span>>)
    ensures
        match r {
            Some(v) => key_index(map_entries(*m), key@) < map_entries(*m).len()
                && v@ == map_entries(*m)[key_index(map_entries(*m), key@)].1,
            None => key_index(map_entries(*m), key@) == map_entries(*m).len(),
        },
{
    m.get(key)
}

/// Relies on `IndexMap::get_index`: the entry at a position of the order.
#[verifier::external_body]
pub(crate) fn map_get_index<'m>(m: &'m SpanMap, i: usize) -> (r: Option<(&'m String, &'m Vec<Span>)>)
    ensures
        match r {
            Some(p) => i < map_entries(*m).len() && p.0@ == map_entries(*m)[i as int].0
                && p.1@ == map_entries(*m)[i as int].1,
            None => i >= map_entries(*m).len(),
        },
{
    m.get_index(i)
}

/// Relies on `IndexMap::insert`: an existing key keeps its place and takes the
/// new value; a new key is added last.
#[verifier::external_body]
pub(crate) fn map_insert(m: &mut SpanMap, key: String, value: Vec<Span>)
    ensures
        ({
            let e = map_entries(*old(m));
            let i = key_index(e, key@);
            if i < e.len() {
                map_entries(*final(m)) == e.update(i, (key@, value@))
            } else {
                map_entries(*final(m)) == e.push((key@, value@))
            }
        }),
{
    m.insert(key, value);
}

} // verus!

verus! {

/// The index found lies between the start of the search and the length.
pub proof fn lemma_key_index_bounds(e: Seq<(Seq<char>, Seq<Span>)>, k: Seq<char>, i: int)
    requires
        0 <= i <= e.len(),
    ensures
        i <= key_index_from(e, k, i) <= e.len(),
        key_index_from(e, k, i) < e.len() ==> e[key_index_from(e, k, i)].0 == k,
    decreases e.len() - i,
{
    if i < e.len() && e[i].0 != k {
        lemma_key_index_bounds(e, k, i + 1);
    }
}

} // verus!
