//! Trusted boundary around `dashmap::DashMap`, the sharded concurrent map
//! that holds the dictionary's two record sets. Each record set is keyed by
//! `String`; its mathematical contents are named by an uninterpreted map from
//! key views to plain record values, and every method the dictionary calls
//! is wrapped with a contract over that name.

use std::sync::Arc;

use dashmap::DashMap;
use vstd::prelude::*;

verus! {

#[verifier::external_type_specification]
#[verifier::external_body]
#[verifier::reject_recursive_types(K)]
#[verifier::reject_recursive_types(V)]
#[verifier::reject_recursive_types(S)]
pub struct ExDashMap<K, V, S>(DashMap<K, V, S>);

/// What an add-record store holds: one association per key, carrying the
/// accepted value and the raw timestamp of the accepted add.
pub uninterp spec fn add_records(m: DashMap<String, (Arc<String>, u64)>) -> Map<
    Seq<char>,
    (Seq<char>, u64),
>;

/// What a remove-record store holds: one tombstone timestamp per key.
pub uninterp spec fn remove_records(m: DashMap<String, u64>) -> Map<Seq<char>, u64>;

/// Relies on `dashmap::DashMap::clone`: lets a dictionary holding these
/// maps derive `Clone`. The contents names are tied to one map value, so
/// nothing is claimed of what the clone holds.
pub assume_specification<K: std::cmp::Eq + std::hash::Hash + Clone, V: Clone, S: Clone>[ <DashMap<
    K,
    V,
    S,
> as Clone>::clone ](m: &DashMap<K, V, S>) -> DashMap<K, V, S>;

/// Relies on `dashmap::DashMap::get`: the association held for `key`, if
/// there is one, cloned out of the map.
#[verifier::external_body]
pub(crate) fn add_store_get(m: &DashMap<String, (Arc<String>, u64)>, key: &String) -> (r: Option<
    (Arc<String>, u64),
>)
    ensures
        match r {
            Some(p) => add_records(*m).contains_key(key@) && add_records(*m)[key@] == (p.0@, p.1),
            None => !add_records(*m).contains_key(key@),
        },
{
    m.get(key).map(|entry| entry.value().clone())
}

/// Relies on `dashmap::DashMap::get`: the tombstone held for `key`, if there
/// is one.
#[verifier::external_body]
pub(crate) fn remove_store_get(m: &DashMap<String, u64>, key: &String) -> (r: Option<u64>)
    ensures
        match r {
            Some(stamp) => remove_records(*m).contains_key(key@) && remove_records(*m)[key@]
                == stamp,
            None => !remove_records(*m).contains_key(key@),
        },
{
    m.get(key).map(|entry| *entry.value())
}

/// Relies on `dashmap::DashMap::insert`: afterwards the map associates `key`
/// with exactly the given record, and no other key changed.
#[verifier::external_body]
pub(crate) fn add_store_insert(
    m: &mut DashMap<String, (Arc<String>, u64)>,
    key: String,
    value: Arc<String>,
    stamp: u64,
)
    ensures
        add_records(*final(m)) == add_records(*old(m)).insert(key@, (value@, stamp)),
{
    m.insert(key, (value, stamp));
}

/// Relies on `dashmap::DashMap::insert`: afterwards the map associates `key`
/// with exactly the given tombstone, and no other key changed.
#[verifier::external_body]
pub(crate) fn remove_store_insert(m: &mut DashMap<String, u64>, key: String, stamp: u64)
    ensures
        remove_records(*final(m)) == remove_records(*old(m)).insert(key@, stamp),
{
    m.insert(key, stamp);
}

/// Relies on `dashmap::DashMap::iter`: every association in the map is
/// yielded exactly once, in unspecified order; each is cloned out here.
#[verifier::external_body]
pub(crate) fn add_store_entries(m: &DashMap<String, (Arc<String>, u64)>) -> (r: Vec<
    (String, Arc<String>, u64),
>)
    ensures
        forall|i: int|
            #![trigger r@[i]]
            0 <= i < r@.len() ==> add_records(*m).contains_key(r@[i].0@) && add_records(
                *m,
            )[r@[i].0@] == (r@[i].1@, r@[i].2),
        forall|k: Seq<char>|
            add_records(*m).contains_key(k) ==> exists|i: int|
                #![trigger r@[i]]
                0 <= i < r@.len() && r@[i].0@ == k,
        forall|i: int, j: int|
            #![trigger r@[i], r@[j]]
            0 <= i < j < r@.len() ==> r@[i].0@ != r@[j].0@,
{
    m.iter().map(|entry| (entry.key().clone(), entry.value().0.clone(), entry.value().1)).collect()
}

/// Relies on `dashmap::DashMap::iter`: every association in the map is
/// yielded exactly once, in unspecified order; each is cloned out here.
#[verifier::external_body]
pub(crate) fn remove_store_entries(m: &DashMap<String, u64>) -> (r: Vec<(String, u64)>)
    ensures
        forall|i: int|
            #![trigger r@[i]]
            0 <= i < r@.len() ==> remove_records(*m).contains_key(r@[i].0@) && remove_records(
                *m,
            )[r@[i].0@] == r@[i].1,
        forall|k: Seq<char>|
            remove_records(*m).contains_key(k) ==> exists|i: int|
                #![trigger r@[i]]
                0 <= i < r@.len() && r@[i].0@ == k,
        forall|i: int, j: int|
            #![trigger r@[i], r@[j]]
            0 <= i < j < r@.len() ==> r@[i].0@ != r@[j].0@,
{
    m.iter().map(|entry| (entry.key().clone(), *entry.value())).collect()
}

} // verus!
