//! The in-memory index: key to value-offset, in insertion order.
//!
//! The map itself is `indexmap::IndexMap`, which keeps its pairs in insertion
//! order, updates an existing key in place, and removes by shifting later
//! pairs down. Its contents are named by the uninterpreted sequence
//! `entries_of`; each wrapper below states, over that name, what the one
//! `IndexMap` method it calls does, as the crate's source shows it.

use vstd::prelude::*;
use indexmap::IndexMap;

verus! {

#[verifier::external_type_specification]
#[verifier::external_body]
#[verifier::reject_recursive_types(K)]
#[verifier::reject_recursive_types(V)]
#[verifier::reject_recursive_types(S)]
pub struct ExIndexMap<K, V, S>(IndexMap<K, V, S>);

/// The pairs an index holds, in insertion order.
pub uninterp spec fn entries_of(m: IndexMap<Vec<u8>, u64>) -> Seq<(Seq<u8>, u64)>;

/// Whether some pair of `es` carries the key `k`.
pub open spec fn has_key(es: Seq<(Seq<u8>, u64)>, k: Seq<u8>) -> bool {
    exists|i: int| 0 <= i < es.len() && (#[trigger] es[i]).0 == k
}

/// A position of the pair carrying `k` (the position, once keys are known to
/// be distinct).
pub open spec fn key_index(es: Seq<(Seq<u8>, u64)>, k: Seq<u8>) -> int {
    choose|i: int| 0 <= i < es.len() && (#[trigger] es[i]).0 == k
}

/// No two pairs of `es` carry the same key.
pub open spec fn distinct_keys(es: Seq<(Seq<u8>, u64)>) -> bool {
    forall|i: int, j: int|
        0 <= i < es.len() && 0 <= j < es.len() && i != j ==> (#[trigger] es[i]).0 != (
        #[trigger] es[j]).0
}

/// Relies on `indexmap::IndexMap::new`: the map is created empty.
#[verifier::external_body]
pub(crate) fn index_new() -> (m: IndexMap<Vec<u8>, u64>)
    ensures
        entries_of(m) == Seq::<(Seq<u8>, u64)>::empty(),
{
    IndexMap::new()
}

/// Relies on `indexmap::IndexMap::len`: the number of pairs.
#[verifier::external_body]
pub(crate) fn index_len(m: &IndexMap<Vec<u8>, u64>) -> (n: usize)
    ensures
        n == entries_of(*m).len(),
{
    m.len()
}

/// Relies on `indexmap::IndexMap::get`: the value of the pair whose key
/// equals the one looked up, if such a pair is present.
#[verifier::external_body]
pub(crate) fn index_get(m: &IndexMap<Vec<u8>, u64>, key: &[u8]) -> (r: Option<u64>)
    ensures
        match r {
            Some(off) => exists|i: int|
                0 <= i < entries_of(*m).len() && #[trigger] entries_of(*m)[i] == (key@, off),
            None => !has_key(entries_of(*m), key@),
        },
{
    m.get(key).copied()
}

/// Relies on `indexmap::IndexMap::contains_key`: whether a pair with an equal
/// key is present; it agrees with what `get` would find.
#[verifier::external_body]
pub(crate) fn index_contains(m: &IndexMap<Vec<u8>, u64>, key: &[u8]) -> (r: bool)
    ensures
        r == has_key(entries_of(*m), key@),
{
    m.contains_key(key)
}

/// Relies on `indexmap::IndexMap::insert`: an existing key keeps its place in
/// the order and takes the new value, returning the old one; a new key goes
/// last in the order.
#[verifier::external_body]
pub(crate) fn index_insert(m: &mut IndexMap<Vec<u8>, u64>, key: Vec<u8>, off: u64) -> (r: Option<
    u64,
>)
    ensures
        match r {
            Some(prev) => exists|i: int|
                0 <= i < entries_of(*old(m)).len() && #[trigger] entries_of(*old(m))[i] == (
                key@,
                prev,
                ) && entries_of(*final(m)) == entries_of(*old(m)).update(i, (key@, off)),
            None => !has_key(entries_of(*old(m)), key@) && entries_of(*final(m)) == entries_of(
                *old(m),
            ).push((key@, off)),
        },
{
    m.insert(key, off)
}

/// Relies on `indexmap::IndexMap::shift_remove`: the pair with an equal key
/// is taken out and the later pairs shift down, keeping their relative order;
/// an absent key leaves the map unchanged.
#[verifier::external_body]
pub(crate) fn index_remove(m: &mut IndexMap<Vec<u8>, u64>, key: &[u8]) -> (r: Option<u64>)
    ensures
        match r {
            Some(prev) => exists|i: int|
                0 <= i < entries_of(*old(m)).len() && #[trigger] entries_of(*old(m))[i] == (
                key@,
                prev,
                ) && entries_of(*final(m)) == entries_of(*old(m)).remove(i),
            None => !has_key(entries_of(*old(m)), key@) && entries_of(*final(m)) == entries_of(
                *old(m),
            ),
        },
{
    m.shift_remove(key)
}

/// Relies on `indexmap::IndexMap::get_index`: the pair at a position in the
/// order, for positions below the length.
#[verifier::external_body]
pub(crate) fn index_at(m: &IndexMap<Vec<u8>, u64>, i: usize) -> (r: Option<(Vec<u8>, u64)>)
    ensures
        match r {
            Some(p) => i < entries_of(*m).len() && p.0@ == entries_of(*m)[i as int].0 && p.1
                == entries_of(*m)[i as int].1,
            None => i >= entries_of(*m).len(),
        },
{
    m.get_index(i).map(|p: (&Vec<u8>, &u64)| (p.0.clone(), *p.1))
}

} // verus!
