//! The in-memory index: an ordered map from key to the place of its live
//! record, kept in a skip list.

use crate::xchg::Index;
use crossbeam_skiplist::SkipMap;
use vstd::prelude::*;

verus! {

#[verifier::external_type_specification]
#[verifier::external_body]
#[verifier::reject_recursive_types(K)]
#[verifier::reject_recursive_types(V)]
pub struct ExSkipMap<K, V>(SkipMap<K, V>);

/// What the skip list holds: for each key, its entry.
pub uninterp spec fn entries_of(map: &SkipMap<Vec<u8>, Index>) -> Map<Seq<u8>, Index>;

/// `a` comes before `b` in the order of byte strings: at the first place where
/// they differ `a` has the smaller byte, or `a` is a proper prefix of `b`.
pub open spec fn lex_less(a: Seq<u8>, b: Seq<u8>) -> bool
    decreases a.len(),
{
    if b.len() == 0 {
        false
    } else if a.len() == 0 {
        true
    } else if a[0] != b[0] {
        a[0] < b[0]
    } else {
        lex_less(a.drop_first(), b.drop_first())
    }
}

/// The index that holds nothing.
pub open spec fn no_entries() -> Map<Seq<u8>, Index> {
    Map::empty()
}

/// Calls `SkipMap::new`. Trusted: the new map holds nothing.
#[verifier::external_body]
pub(crate) fn index_new() -> (fresh: SkipMap<Vec<u8>, Index>)
    ensures
        entries_of(&fresh) == no_entries(),
{
    SkipMap::new()
}

/// Calls `SkipMap::insert`. Trusted: afterwards the key maps to the new entry,
/// whether or not it was there before, and every other key is as it was.
#[verifier::external_body]
pub(crate) fn index_insert(map: &mut SkipMap<Vec<u8>, Index>, key: Vec<u8>, entry: Index)
    ensures
        entries_of(final(map)) == entries_of(old(map)).insert(key@, entry),
{
    map.insert(key, entry);
}

/// Calls `SkipMap::get` and copies the entry's value out. Trusted: the result
/// is the entry of the key, or `None` where the map has none.
#[verifier::external_body]
pub(crate) fn index_get(map: &SkipMap<Vec<u8>, Index>, key: &[u8]) -> (entry: Option<Index>)
    ensures
        entry == if entries_of(map).contains_key(key@) {
            Some(entries_of(map)[key@])
        } else {
            None
        },
{
    map.get(key).map(|e| *e.value())
}

/// Calls `SkipMap::remove`. Trusted: afterwards the key is absent and every
/// other key is as it was.
#[verifier::external_body]
pub(crate) fn index_remove(map: &mut SkipMap<Vec<u8>, Index>, key: &[u8])
    ensures
        entries_of(final(map)) == entries_of(old(map)).remove(key@),
{
    map.remove(key);
}

/// Calls `SkipMap::iter` and copies each key with its entry. Trusted: every
/// key of the map comes out once with its entry, nothing else does, and the
/// keys come in ascending order.
#[verifier::external_body]
pub(crate) fn index_entries(map: &SkipMap<Vec<u8>, Index>) -> (entries: Vec<(Vec<u8>, Index)>)
    ensures
        forall|i: int|
            0 <= i < entries@.len() ==> entries_of(map).contains_key((#[trigger] entries@[i]).0@)
                && entries_of(map)[entries@[i].0@] == entries@[i].1,
        forall|k: Seq<u8>|
            entries_of(map).contains_key(k) ==> exists|i: int|
                0 <= i < entries@.len() && (#[trigger] entries@[i]).0@ == k,
        forall|i: int, j: int|
            0 <= i < j < entries@.len() ==> (#[trigger] entries@[i]).0@ != (
            #[trigger] entries@[j]).0@,
        forall|i: int, j: int|
            0 <= i < j < entries@.len() ==> lex_less(
                (#[trigger] entries@[i]).0@,
                (#[trigger] entries@[j]).0@,
            ),
{
    map.iter().map(|e| (e.key().clone(), *e.value())).collect()
}

} // verus!
