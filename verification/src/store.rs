//! The per-node key→entry store: a concurrent map from an outside crate,
//! held behind trusted wrappers.  Its contents are modelled as a map from
//! the key's characters to the entry's bytes and optional expiry instant
//! (a millisecond count).

use vstd::prelude::*;

verus! {

/// The concurrent map type of the store.  Declared so that values of it can
/// stand in fields and signatures; nothing inside it is visible to proofs.
#[verifier::external_type_specification]
#[verifier::external_body]
#[verifier::reject_recursive_types(K)]
#[verifier::reject_recursive_types(V)]
#[verifier::reject_recursive_types(S)]
pub struct ExDashMap<K, V, S>(dashmap::DashMap<K, V, S>);

/// A node's live key→entry map: entry = (value bytes, optional expiry).
pub type StoreMap = dashmap::DashMap<String, (Vec<u8>, Option<u64>)>;

/// What the store holds: each live key mapped to its entry.
pub uninterp spec fn store_contents(m: StoreMap) -> Map<Seq<char>, (Seq<u8>, Option<u64>)>;

/// The model of a store that holds nothing.
pub open spec fn store_empty_model() -> Map<Seq<char>, (Seq<u8>, Option<u64>)> {
    Map::empty()
}

/// Relies on `dashmap::DashMap::new`: a fresh map holds nothing.
#[verifier::external_body]
pub(crate) fn store_new() -> (r: StoreMap)
    ensures
        store_contents(r) == store_empty_model(),
{
    dashmap::DashMap::new()
}

/// Relies on `dashmap::DashMap::insert`: the entry replaces any prior one
/// under the same key.
#[verifier::external_body]
pub(crate) fn store_insert(m: &mut StoreMap, key: String, value: Vec<u8>, expiry: Option<u64>)
    ensures
        store_contents(*final(m)) == store_contents(*old(m)).insert(key@, (value@, expiry)),
{
    m.insert(key, (value, expiry));
}

/// Relies on `dashmap::DashMap::remove`: the entry under the key is
/// dropped; removing an absent key changes nothing.
#[verifier::external_body]
pub(crate) fn store_remove(m: &mut StoreMap, key: &str)
    ensures
        store_contents(*final(m)) == store_contents(*old(m)).remove(key@),
{
    m.remove(key);
}

/// Relies on `dashmap::DashMap::get`: returns the entry under the key when
/// one is held, and nothing otherwise.  The entry is copied out of the
/// guard, so the map is read but never changed.
#[verifier::external_body]
pub(crate) fn store_get(m: &StoreMap, key: &str) -> (r: Option<(Vec<u8>, Option<u64>)>)
    ensures
        match r {
            Some(e) => store_contents(*m).contains_key(key@) && store_contents(*m)[key@] == (
                e.0@,
                e.1,
            ),
            None => !store_contents(*m).contains_key(key@),
        },
{
    match m.get(key) {
        Some(guard) => {
            let e = guard.value();
            Some((e.0.clone(), e.1))
        },
        None => None,
    }
}

} // verus!
