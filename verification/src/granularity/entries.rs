//! The insertion-ordered map behind the dimension registry, and the string
//! order that ranks dimension names. Nothing in this file is proved: each
//! contract restates what the called function documents.

use crate::granularity::possible_dimensions::DimensionValues;
use indexmap::IndexMap;
use vstd::prelude::*;

verus! {

#[verifier::external_type_specification]
#[verifier::external_body]
#[verifier::reject_recursive_types(K)]
#[verifier::reject_recursive_types(V)]
#[verifier::reject_recursive_types(S)]
pub struct ExIndexMap<K, V, S>(IndexMap<K, V, S>);

/// The name and the labels of each dimension that a map holds, in the map's order.
pub uninterp spec fn map_entries(m: IndexMap<String, DimensionValues>) -> Seq<
    (Seq<char>, Seq<Seq<char>>),
>;

/// `IndexMap::new`: the new map holds no pair.
#[verifier::external_body]
pub(crate) fn map_new() -> (m: IndexMap<String, DimensionValues>)
    ensures
        map_entries(m).len() == 0,
{
    IndexMap::new()
}

/// `IndexMap::len`: the number of pairs held.
#[verifier::external_body]
pub(crate) fn map_len(m: &IndexMap<String, DimensionValues>) -> (n: usize)
    ensures
        n == map_entries(*m).len(),
{
    m.len()
}

/// `IndexMap::get_index`: the pair at position `index` in the map's order,
/// and `None` from the length on.
#[verifier::external_body]
pub(crate) fn map_get_index(
    m: &IndexMap<String, DimensionValues>,
    index: usize,
) -> (r: Option<(&String, &DimensionValues)>)
    ensures
        match r {
            Some(pair) => index < map_entries(*m).len()
                && pair.0@ == map_entries(*m)[index as int].0
                && pair.1@ == map_entries(*m)[index as int].1,
            None => index >= map_entries(*m).len(),
        },
{
    m.get_index(index)
}

/// `IndexMap::get_index_of`: the position of the pair whose key equals `key`,
/// and `None` where no key does.
#[verifier::external_body]
pub(crate) fn map_get_index_of(
    m: &IndexMap<String, DimensionValues>,
    key: &str,
) -> (r: Option<usize>)
    ensures
        r matches Some(i) ==> i < map_entries(*m).len() && map_entries(*m)[i as int].0 == key@,
        r is None ==> forall|i: int|
            0 <= i < map_entries(*m).len() ==> (#[trigger] map_entries(*m)[i]).0 != key@,
{
    m.get_index_of(key)
}

/// `IndexMap::insert`: where a pair with an equal key is held, that pair's
/// value is replaced in place and the old value returned; otherwise the new
/// pair goes last in the order and `None` is returned.
#[verifier::external_body]
pub(crate) fn map_insert(
    m: &mut IndexMap<String, DimensionValues>,
    key: String,
    value: DimensionValues,
) -> (r: Option<DimensionValues>)
    ensures
        forall|i: int|
            0 <= i < map_entries(*old(m)).len() && (#[trigger] map_entries(*old(m))[i]).0 == key@
                ==> map_entries(*final(m)) == map_entries(*old(m)).update(i, (key@, value@))
                && (r matches Some(replaced) && replaced@ == map_entries(*old(m))[i].1),
        (forall|i: int|
            0 <= i < map_entries(*old(m)).len() ==> (#[trigger] map_entries(*old(m))[i]).0 != key@)
            ==> map_entries(*final(m)) == map_entries(*old(m)).push((key@, value@)) && r is None,
{
    m.insert(key, value)
}

/// `IndexMap::clone`: the copy holds the same pairs in the same order.
#[verifier::external_body]
pub(crate) fn map_clone(
    m: &IndexMap<String, DimensionValues>,
) -> (r: IndexMap<String, DimensionValues>)
    ensures
        map_entries(r) == map_entries(*m),
{
    m.clone()
}

/// The order that std documents for strings: by code point, position by
/// position, a proper prefix before the longer string.
pub open spec fn lex_le(a: Seq<char>, b: Seq<char>) -> bool
    decreases a.len(),
{
    if a.len() == 0 {
        true
    } else if b.len() == 0 {
        false
    } else if a[0] != b[0] {
        (a[0] as u32) < (b[0] as u32)
    } else {
        lex_le(a.drop_first(), b.drop_first())
    }
}

/// `<=` on `String`: std orders strings lexicographically by their bytes,
/// which in UTF-8 is the order of their code points.
#[verifier::external_body]
pub(crate) fn name_le(a: &String, b: &String) -> (r: bool)
    ensures
        r == lex_le(a@, b@),
{
    a <= b
}

} // verus!
