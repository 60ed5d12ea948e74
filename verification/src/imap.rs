//! Trusted view of the ordered map from the `indexmap` crate.
//!
//! The upstream registry keeps its entries in an `indexmap::IndexMap`, which
//! holds at most one entry per key and iterates in insertion order. Verus
//! does not read that crate, so this module declares the type, names its
//! contents as a sequence of key/value pairs (oldest first), and wraps each
//! method the registry calls in a function whose contract states what the
//! crate's documentation and source show.

use vstd::prelude::*;

use indexmap::IndexMap;
use std::collections::hash_map::RandomState;

verus! {

#[verifier::external_type_specification]
#[verifier::external_body]
#[verifier::reject_recursive_types(K)]
#[verifier::reject_recursive_types(V)]
#[verifier::reject_recursive_types(S)]
pub struct ExIndexMap<K, V, S>(IndexMap<K, V, S>);

/// The entries of a registry map in insertion order, oldest first: each pair
/// is a socket path (the key) and its forward-adds flag (the value).
pub uninterp spec fn imap_entries(m: &IndexMap<String, bool, RandomState>) -> Seq<(Seq<char>, bool)>;

/// Holds of the entries whose key is not `key`: the predicate by which a
/// removal filters the entries.
pub open spec fn key_differs(key: Seq<char>) -> spec_fn((Seq<char>, bool)) -> bool {
    |e: (Seq<char>, bool)| e.0 != key
}

/// Relies on `IndexMap::new`: a fresh map has no entries.
#[verifier::external_body]
pub fn imap_new() -> (m: IndexMap<String, bool, RandomState>)
    ensures
        imap_entries(&m) == Seq::<(Seq<char>, bool)>::empty(),
{
    IndexMap::new()
}

/// Relies on `IndexMap::len`: the number of entries.
#[verifier::external_body]
pub fn imap_len(m: &IndexMap<String, bool, RandomState>) -> (n: usize)
    ensures
        n == imap_entries(m).len(),
{
    m.len()
}

/// Relies on `IndexMap::get_index`: the pair at `i` in insertion order, which
/// exists because valid indices are exactly `0 <= i < len`.
#[verifier::external_body]
pub fn imap_entry_at(m: &IndexMap<String, bool, RandomState>, i: usize) -> (r: (String, bool))
    requires
        i < imap_entries(m).len(),
    ensures
        (r.0@, r.1) == imap_entries(m)[i as int],
{
    let (k, v) = m.get_index(i).expect("index is in range");
    (k.clone(), *v)
}

/// Relies on `IndexMap::get_index_mut`: replaces the value at `i` in place,
/// keeping the key and the order.
#[verifier::external_body]
pub fn imap_set_value_at(m: &mut IndexMap<String, bool, RandomState>, i: usize, v: bool)
    requires
        i < imap_entries(old(m)).len(),
    ensures
        imap_entries(final(m)) == imap_entries(old(m)).update(
            i as int,
            (imap_entries(old(m))[i as int].0, v),
        ),
{
    if let Some((_, slot)) = m.get_index_mut(i) {
        *slot = v;
    }
}

/// Relies on `IndexMap::shift_remove`: removes the entry with this key, if
/// any, shifting the entries that follow it down and preserving their order;
/// `String` equality is equality of the characters.
#[verifier::external_body]
pub fn imap_shift_remove(m: &mut IndexMap<String, bool, RandomState>, key: &String) -> (r: Option<
    bool,
>)
    ensures
        imap_entries(final(m)) == imap_entries(old(m)).filter(key_differs(key@)),
        r is Some <==> exists|i: int|
            0 <= i < imap_entries(old(m)).len() && imap_entries(old(m))[i].0 == key@,
{
    m.shift_remove(key)
}

/// Relies on `IndexMap::insert`: a key no entry holds is appended, last in
/// order.
#[verifier::external_body]
pub fn imap_insert_absent(m: &mut IndexMap<String, bool, RandomState>, key: String, v: bool)
    requires
        forall|i: int|
            0 <= i < imap_entries(old(m)).len() ==> imap_entries(old(m))[i].0 != key@,
    ensures
        imap_entries(final(m)) == imap_entries(old(m)).push((key@, v)),
{
    m.insert(key, v);
}

} // verus!
