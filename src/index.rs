//! The in-memory index: from each live key to the place of its latest `Put`.
//!
//! It is a `dashmap::DashMap`, reached only through the functions below, each
//! of which states what the map holds afterwards.

use vstd::prelude::*;
use dashmap::DashMap;

verus! {

/// Where one record lies: its segment's generation, its first byte, and its
/// length in bytes.
#[derive(Clone, Copy, Debug)]
pub struct CommandPointer {
    pub gen: u64,
    pub pos: u64,
    pub len: u64,
}

impl CommandPointer {
    /// The pointer to the bytes from `start` up to `end` in segment `gen`.
    pub fn new(gen: u64, start: u64, end: u64) -> (r: CommandPointer)
        requires
            start <= end,
        ensures
            r == (CommandPointer { gen, pos: start, len: (end - start) as u64 }),
    {
        CommandPointer { gen, pos: start, len: end - start }
    }
}

#[verifier::external_type_specification]
#[verifier::external_body]
#[verifier::reject_recursive_types(K)]
#[verifier::reject_recursive_types(V)]
#[verifier::reject_recursive_types(S)]
pub struct ExDashMap<K, V, S>(DashMap<K, V, S>);

/// What an index holds, key by key.
pub uninterp spec fn index_entries(m: DashMap<String, CommandPointer>) -> Map<Seq<char>, CommandPointer>;

/// The entry of `k`, if any.
pub open spec fn entry_of(m: Map<Seq<char>, CommandPointer>, k: Seq<char>) -> Option<CommandPointer> {
    if m.contains_key(k) {
        Some(m[k])
    } else {
        None
    }
}

pub open spec fn no_entries() -> Map<Seq<char>, CommandPointer> {
    Map::empty()
}

/// Relies on `DashMap::new`: a new map holds nothing.
#[verifier::external_body]
pub(crate) fn index_new() -> (r: DashMap<String, CommandPointer>)
    ensures
        index_entries(r) == no_entries(),
{
    DashMap::new()
}

/// Relies on `DashMap::insert`: the key then maps to the value, and the value
/// it had before, if any, is returned.
#[verifier::external_body]
pub(crate) fn index_insert(m: &mut DashMap<String, CommandPointer>, key: String, p: CommandPointer) -> (r: Option<CommandPointer>)
    ensures
        index_entries(*final(m)) == index_entries(*old(m)).insert(key@, p),
        r == entry_of(index_entries(*old(m)), key@),
{
    m.insert(key, p)
}

/// Relies on `DashMap::get`: the value of the key, if it has one.
#[verifier::external_body]
pub(crate) fn index_get(m: &DashMap<String, CommandPointer>, key: &String) -> (r: Option<CommandPointer>)
    ensures
        r == entry_of(index_entries(*m), key@),
{
    m.get(key).map(|e| *e.value())
}

/// Relies on `DashMap::remove`: the key no longer maps to anything, and the
/// value it had, if any, is returned.
#[verifier::external_body]
pub(crate) fn index_remove(m: &mut DashMap<String, CommandPointer>, key: &String) -> (r: Option<CommandPointer>)
    ensures
        index_entries(*final(m)) == index_entries(*old(m)).remove(key@),
        r == entry_of(index_entries(*old(m)), key@),
{
    m.remove(key).map(|e| e.1)
}

/// Relies on `DashMap::iter`: it visits every entry once, in some order.
#[verifier::external_body]
pub(crate) fn index_snapshot(m: &DashMap<String, CommandPointer>) -> (r: Vec<(String, CommandPointer)>)
    ensures
        forall|j: int| 0 <= j < r@.len() ==> #[trigger] index_entries(*m).contains_key(r@[j].0@)
            && index_entries(*m)[r@[j].0@] == r@[j].1,
        forall|a: int, b: int| 0 <= a < b < r@.len() ==> r@[a].0@ != r@[b].0@,
        forall|k: Seq<char>| #[trigger] index_entries(*m).contains_key(k) ==> exists|j: int| 0 <= j < r@.len() && r@[j].0@ == k,
{
    m.iter().map(|e| (e.key().clone(), *e.value())).collect()
}

} // verus!
