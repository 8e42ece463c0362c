//! The in-memory index: a concurrent ordered map from key to the place of the
//! record that holds the key's live value.
use crossbeam_skiplist::SkipMap;
use vstd::prelude::*;

verus! {

/// Where a record lies: its log generation, its offset in that log, and its
/// length in bytes.
#[derive(Clone, Copy, Debug, PartialEq, Eq, Structural)]
pub struct CommandPos {
    pub gen: u64,
    pub pos: u64,
    pub len: u64,
}

#[verifier::external_type_specification]
#[verifier::external_body]
#[verifier::reject_recursive_types(K)]
#[verifier::reject_recursive_types(V)]
pub struct ExSkipMap<K, V>(SkipMap<K, V>);

/// The index as this store holds it.
pub type KeyIndex = SkipMap<Vec<u8>, CommandPos>;

/// The entries of an index, each key by the bytes it holds.
pub uninterp spec fn index_entries(m: KeyIndex) -> Map<Seq<u8>, CommandPos>;

/// Relies on `SkipMap::new`: the map starts empty.
#[verifier::external_body]
pub(crate) fn index_new() -> (r: KeyIndex)
    ensures
        index_entries(r).dom().is_empty(),
{
    SkipMap::new()
}

/// Relies on `SkipMap::get`: the entry whose key compares equal to `key`,
/// which for byte vectors is the entry with the same bytes.
#[verifier::external_body]
pub(crate) fn index_get(m: &KeyIndex, key: &Vec<u8>) -> (r: Option<CommandPos>)
    ensures
        match r {
            Some(p) => index_entries(*m).contains_key(key@) && index_entries(*m)[key@] == p,
            None => !index_entries(*m).contains_key(key@),
        },
{
    m.get(key).map(|e| *e.value())
}

/// Relies on `SkipMap::insert`: an entry with the same key is replaced.
#[verifier::external_body]
pub(crate) fn index_insert(m: &mut KeyIndex, key: Vec<u8>, value: CommandPos)
    ensures
        index_entries(*final(m)) == index_entries(*old(m)).insert(key@, value),
{
    m.insert(key, value);
}

/// Relies on `SkipMap::remove`: the entry with the key leaves the map and is
/// handed back.
#[verifier::external_body]
pub(crate) fn index_remove(m: &mut KeyIndex, key: &Vec<u8>) -> (r: Option<CommandPos>)
    ensures
        index_entries(*final(m)) == index_entries(*old(m)).remove(key@),
        match r {
            Some(p) => index_entries(*old(m)).contains_key(key@) && index_entries(*old(m))[key@] == p,
            None => !index_entries(*old(m)).contains_key(key@),
        },
{
    m.remove(key).map(|e| *e.value())
}

/// Relies on `SkipMap::iter`: it walks the entries in ascending key order, so
/// each key comes once, and with no writer at work every entry comes.
#[verifier::external_body]
pub(crate) fn index_snapshot(m: &KeyIndex) -> (r: Vec<(Vec<u8>, CommandPos)>)
    ensures
        forall|i: int, j: int| 0 <= i < j < r@.len() ==> r@[i].0@ != r@[j].0@,
        forall|i: int|
            0 <= i < r@.len() ==> index_entries(*m).contains_key(#[trigger] r@[i].0@)
                && index_entries(*m)[r@[i].0@] == r@[i].1,
        forall|k: Seq<u8>|
            index_entries(*m).contains_key(k) ==> exists|i: int| 0 <= i < r@.len() && #[trigger] r@[i].0@ == k,
{
    m.iter().map(|e| (e.key().clone(), *e.value())).collect()
}

} // verus!
