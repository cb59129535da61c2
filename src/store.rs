//! The concurrent map that holds a grid's cells, and what the library assumes of it.
use vstd::prelude::*;
use crate::cell::Life;
use dashmap::DashMap;

verus! {

/// `dashmap::DashMap`, a hash map that many threads can read at once.
#[verifier::external_type_specification]
#[verifier::external_body]
#[verifier::reject_recursive_types(K)]
#[verifier::reject_recursive_types(V)]
#[verifier::reject_recursive_types(S)]
pub struct ExDashMap<K, V, S>(DashMap<K, V, S>);

/// The cells that a concurrent map holds, by position.
pub uninterp spec fn cells_of(m: DashMap<(i32, i32), Life>) -> Map<(i32, i32), Life>;

/// Relies on `DashMap::new`: a map that holds nothing.
#[verifier::external_body]
pub(crate) fn new_cell_map() -> (r: DashMap<(i32, i32), Life>)
    ensures
        cells_of(r).dom() == Set::<(i32, i32)>::empty(),
{
    DashMap::new()
}

/// Relies on `DashMap::get`: the entry stored under `key`, if there is one, read
/// through the guard it hands out.
#[verifier::external_body]
pub(crate) fn cell_at(m: &DashMap<(i32, i32), Life>, key: (i32, i32)) -> (r: Option<Life>)
    ensures
        r == (if cells_of(*m).contains_key(key) {
            Some(cells_of(*m)[key])
        } else {
            None
        }),
{
    m.get(&key).map(|entry| *entry)
}

/// Relies on `DashMap::insert`: the entry under `key` becomes `value`, the others
/// stay, and the value it replaced comes back.
#[verifier::external_body]
pub(crate) fn put_cell(m: &mut DashMap<(i32, i32), Life>, key: (i32, i32), value: Life) -> (r:
    Option<Life>)
    ensures
        cells_of(*final(m)) == cells_of(*old(m)).insert(key, value),
        r == (if cells_of(*old(m)).contains_key(key) {
            Some(cells_of(*old(m))[key])
        } else {
            None
        }),
{
    m.insert(key, value)
}

/// Relies on `DashMap::iter`: every key of the map once, in an order that the
/// map's hashing decides.
#[verifier::external_body]
pub(crate) fn positions_of(m: &DashMap<(i32, i32), Life>) -> (r: Vec<(i32, i32)>)
    ensures
        r@.no_duplicates(),
        forall|k: (i32, i32)| r@.contains(k) <==> cells_of(*m).contains_key(k),
{
    m.iter().map(|entry| *entry.key()).collect()
}

} // verus!
