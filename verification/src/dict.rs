//! The dictionary engine: two timestamped record sets and the
//! last-write-wins conflict-resolution rules for add, remove, lookup,
//! update, merge and keys, stated over a mathematical view of the state.

use std::sync::Arc;

use dashmap::DashMap;
use vstd::prelude::*;

use crate::store::add_records;
use crate::store::add_store_entries;
use crate::store::add_store_get;
use crate::store::add_store_insert;
use crate::store::remove_records;
use crate::store::remove_store_entries;
use crate::store::remove_store_get;
use crate::store::remove_store_insert;
use crate::timestamp::Timestamp;

verus! {

/// The mathematical state of one dictionary replica: the add-records (per
/// key, the accepted value and its raw timestamp) and the remove-records
/// (per key, the tombstone's raw timestamp).
#[verifier::ext_equal]
pub struct DictView {
    pub adds: Map<Seq<char>, (Seq<char>, u64)>,
    pub removes: Map<Seq<char>, u64>,
}

/// The state of a freshly created replica: no records at all.
pub open spec fn empty_dict() -> DictView {
    DictView { adds: Map::empty(), removes: Map::empty() }
}

/// One add observation: the new record replaces the old one only on a
/// strictly greater timestamp; an equal or lesser timestamp is a no-op.
pub open spec fn spec_add(d: DictView, key: Seq<char>, value: Seq<char>, stamp: u64) -> DictView {
    if d.adds.contains_key(key) && d.adds[key].1 >= stamp {
        d
    } else {
        DictView { adds: d.adds.insert(key, (value, stamp)), removes: d.removes }
    }
}

/// One remove observation: the tombstone timestamp only ever grows,
/// strictly; ties keep the existing tombstone.
pub open spec fn spec_remove(d: DictView, key: Seq<char>, stamp: u64) -> DictView {
    if d.removes.contains_key(key) && d.removes[key] >= stamp {
        d
    } else {
        DictView { adds: d.adds, removes: d.removes.insert(key, stamp) }
    }
}

/// A key is present iff it carries an add-record that is not outweighed by a
/// strictly later tombstone: the add wins an exact timestamp tie.
pub open spec fn spec_present(d: DictView, key: Seq<char>) -> bool {
    d.adds.contains_key(key) && (!d.removes.contains_key(key) || d.adds[key].1 >= d.removes[key])
}

/// What lookup returns: the add-record's value if the key is present.
pub open spec fn spec_lookup(d: DictView, key: Seq<char>) -> Option<Seq<char>> {
    if spec_present(d, key) {
        Some(d.adds[key].0)
    } else {
        None
    }
}

/// Of two add-records for one key, the one with the strictly greater
/// timestamp; the first argument survives an exact tie.
pub open spec fn lww_max(a: (Seq<char>, u64), b: (Seq<char>, u64)) -> (Seq<char>, u64) {
    if b.1 > a.1 {
        b
    } else {
        a
    }
}

/// The add-records after one replica's set has absorbed another's: per key,
/// the record with the greater timestamp, the local one surviving ties.
pub open spec fn merged_adds(
    a: Map<Seq<char>, (Seq<char>, u64)>,
    b: Map<Seq<char>, (Seq<char>, u64)>,
) -> Map<Seq<char>, (Seq<char>, u64)> {
    Map::new(
        |k: Seq<char>| a.contains_key(k) || b.contains_key(k),
        |k: Seq<char>|
            if a.contains_key(k) && b.contains_key(k) {
                lww_max(a[k], b[k])
            } else if a.contains_key(k) {
                a[k]
            } else {
                b[k]
            },
    )
}

/// The remove-records after one replica's set has absorbed another's: per
/// key, the greater tombstone timestamp.
pub open spec fn merged_removes(a: Map<Seq<char>, u64>, b: Map<Seq<char>, u64>) -> Map<
    Seq<char>,
    u64,
> {
    Map::new(
        |k: Seq<char>| a.contains_key(k) || b.contains_key(k),
        |k: Seq<char>|
            if a.contains_key(k) && b.contains_key(k) {
                if b[k] > a[k] {
                    b[k]
                } else {
                    a[k]
                }
            } else if a.contains_key(k) {
                a[k]
            } else {
                b[k]
            },
    )
}

/// The state of a replica after merging another replica in.
pub open spec fn spec_merge(d: DictView, o: DictView) -> DictView {
    DictView { adds: merged_adds(d.adds, o.adds), removes: merged_removes(d.removes, o.removes) }
}

/// Whether `entries[at..]` holds an entry for key `k`: the entries a merge
/// loop consuming its vector from the back has already replayed.
pub(crate) open spec fn replayed_add(entries: Seq<(String, Arc<String>, u64)>, at: int, k: Seq<char>) -> bool {
    exists|i: int| #![trigger entries[i]] at <= i < entries.len() && entries[i].0@ == k
}

/// As `replayed_add`, for the remove-record entries.
pub(crate) open spec fn replayed_remove(entries: Seq<(String, u64)>, at: int, k: Seq<char>) -> bool {
    exists|i: int| #![trigger entries[i]] at <= i < entries.len() && entries[i].0@ == k
}

/// A Last-Write-Wins Element Dictionary CRDT. Stores key-value pairs with
/// associated timestamps, resolving conflicts in favour of the most recent
/// timestamp; adds win exact timestamp ties against removes, and an already
/// held add-record survives an exact tie against an incoming one.
#[derive(Debug, Clone)]
pub struct LWWElementDictionary {
    add_set: DashMap<String, (Arc<String>, u64)>,
    remove_set: DashMap<String, u64>,
}

impl View for LWWElementDictionary {
    type V = DictView;

    closed spec fn view(&self) -> DictView {
        DictView { adds: add_records(self.add_set), removes: remove_records(self.remove_set) }
    }
}

impl LWWElementDictionary {
    /// Creates a new empty `LWWElementDictionary`.
    /// Relies on `dashmap::DashMap::new`: both record stores start empty.
    #[verifier::external_body]
    pub fn new() -> (d: Self)
        ensures
            d@ == empty_dict(),
    {
        LWWElementDictionary { add_set: DashMap::new(), remove_set: DashMap::new() }
    }

    /// Adds or updates a key-value pair with the given timestamp. The write
    /// is accepted only if no add-record is held for the key or the held
    /// record's timestamp is strictly smaller; otherwise it is a no-op.
    pub fn add(&mut self, key: String, value: String, timestamp: Timestamp)
        ensures
            final(self)@ == spec_add(old(self)@, key@, value@, timestamp@),
    {
        let stamp = timestamp.value();
        let shared = Arc::new(value);
        self.add_record(key, shared, stamp);
    }

    /// Installs an already shared add-record, under the same acceptance rule
    /// as `add`; `merge` hands records over without copying the value out.
    fn add_record(&mut self, key: String, value: Arc<String>, stamp: u64)
        ensures
            final(self)@ == spec_add(old(self)@, key@, value@, stamp),
    {
        let accept = match add_store_get(&self.add_set, &key) {
            Some(existing) => stamp > existing.1,
            None => true,
        };
        if accept {
            add_store_insert(&mut self.add_set, key, value, stamp);
        }
        proof {
            assert(self@ =~= spec_add(old(self)@, key@, value@, stamp));
        }
    }

    /// Removes a key with the given timestamp: records or advances the
    /// key's tombstone, but only to a strictly greater timestamp. Removing a
    /// key with no prior add is legal and records the tombstone pre-emptively.
    pub fn remove(&mut self, key: &String, timestamp: Timestamp)
        ensures
            final(self)@ == spec_remove(old(self)@, key@, timestamp@),
    {
        let stamp = timestamp.value();
        let accept = match remove_store_get(&self.remove_set, key) {
            Some(existing) => stamp > existing,
            None => true,
        };
        if accept {
            remove_store_insert(&mut self.remove_set, key.clone(), stamp);
        }
        proof {
            assert(self@ =~= spec_remove(old(self)@, key@, timestamp@));
        }
    }

    /// Looks up the value associated with a key, if the key is present: it
    /// carries an add-record and no strictly later tombstone. The returned
    /// value is shared, and stays valid across later mutation of the key.
    pub fn lookup(&self, key: &String) -> (r: Option<Arc<String>>)
        ensures
            match r {
                Some(v) => spec_lookup(self@, key@) == Some(v@),
                None => spec_lookup(self@, key@) is None,
            },
    {
        match add_store_get(&self.add_set, key) {
            Some(added) => match remove_store_get(&self.remove_set, key) {
                Some(removed_stamp) => if added.1 >= removed_stamp {
                    Some(added.0)
                } else {
                    None
                },
                None => Some(added.0),
            },
            None => None,
        }
    }

    /// Updates the value of an existing key with a new value and timestamp.
    /// Exactly the `add` operation, under the same tie-break rule.
    pub fn update(&mut self, key: String, value: String, timestamp: Timestamp)
        ensures
            final(self)@ == spec_add(old(self)@, key@, value@, timestamp@),
    {
        self.add(key, value, timestamp);
    }

    /// Merges another `LWWElementDictionary` into this one: every add-record
    /// and every remove-record of `other` is replayed locally under the
    /// usual acceptance rules. Per key, the record with the greater
    /// timestamp wins; the local record survives an exact add tie.
    pub fn merge(&mut self, other: &Self)
        ensures
            final(self)@ == spec_merge(old(self)@, other@),
    {
        let ghost d0 = self@;
        let ghost o = other@;

        let mut add_entries = add_store_entries(&other.add_set);
        let ghost all_adds = add_entries@;
        while add_entries.len() > 0
            invariant
                d0 == old(self)@,
                o == other@,
                add_entries@ == all_adds.subrange(0, add_entries@.len() as int),
                add_entries@.len() <= all_adds.len(),
                forall|i: int|
                    #![trigger all_adds[i]]
                    0 <= i < all_adds.len() ==> o.adds.contains_key(all_adds[i].0@)
                        && o.adds[all_adds[i].0@] == (all_adds[i].1@, all_adds[i].2),
                forall|k: Seq<char>|
                    o.adds.contains_key(k) ==> exists|i: int|
                        #![trigger all_adds[i]]
                        0 <= i < all_adds.len() && all_adds[i].0@ == k,
                forall|i: int, j: int|
                    #![trigger all_adds[i], all_adds[j]]
                    0 <= i < j < all_adds.len() ==> all_adds[i].0@ != all_adds[j].0@,
                self@.removes == d0.removes,
                forall|k: Seq<char>|
                    #[trigger] replayed_add(all_adds, add_entries@.len() as int, k) ==> {
                        &&& self@.adds.contains_key(k)
                        &&& self@.adds[k] == merged_adds(d0.adds, o.adds)[k]
                    },
                forall|k: Seq<char>|
                    !replayed_add(all_adds, add_entries@.len() as int, k) ==> {
                        &&& #[trigger] self@.adds.contains_key(k) == d0.adds.contains_key(k)
                        &&& (d0.adds.contains_key(k) ==> self@.adds[k] == d0.adds[k])
                    },
            decreases add_entries.len(),
        {
            let ghost prev = self@;
            let ghost n = add_entries@.len() as int;
            let entry = add_entries.pop().unwrap();
            self.add_record(entry.0, entry.1, entry.2);
            proof {
                assert(add_entries@ =~= all_adds.subrange(0, n - 1));
                assert forall|k: Seq<char>| #[trigger]
                    replayed_add(all_adds, n - 1, k) implies {
                    &&& self@.adds.contains_key(k)
                    &&& self@.adds[k] == merged_adds(d0.adds, o.adds)[k]
                } by {
                    lemma_replay_add_step(all_adds, n - 1, prev, self@, d0, o, k);
                }
                assert forall|k: Seq<char>| !replayed_add(all_adds, n - 1, k) implies {
                    &&& #[trigger] self@.adds.contains_key(k) == d0.adds.contains_key(k)
                    &&& (d0.adds.contains_key(k) ==> self@.adds[k] == d0.adds[k])
                } by {
                    lemma_replay_add_step(all_adds, n - 1, prev, self@, d0, o, k);
                }
            }
        }
        proof {
            assert forall|k: Seq<char>| #[trigger]
                merged_adds(d0.adds, o.adds).contains_key(k) implies self@.adds.contains_key(k)
                && self@.adds[k] == merged_adds(d0.adds, o.adds)[k] by {
                if o.adds.contains_key(k) {
                    let i = choose|i: int|
                        #![trigger all_adds[i]]
                        0 <= i < all_adds.len() && all_adds[i].0@ == k;
                    assert(0 <= i < all_adds.len() && all_adds[i].0@ == k);
                    assert(replayed_add(all_adds, 0, k));
                } else {
                    assert(!replayed_add(all_adds, 0, k)) by {
                        if replayed_add(all_adds, 0, k) {
                            let i = choose|i: int|
                                #![trigger all_adds[i]]
                                0 <= i < all_adds.len() && all_adds[i].0@ == k;
                            assert(o.adds.contains_key(all_adds[i].0@));
                        }
                    }
                    assert(self@.adds.contains_key(k) == d0.adds.contains_key(k));
                }
            }
            assert forall|k: Seq<char>| #[trigger]
                self@.adds.contains_key(k) implies merged_adds(d0.adds, o.adds).contains_key(
                k,
            ) by {
                if replayed_add(all_adds, 0, k) {
                    let i = choose|i: int|
                        #![trigger all_adds[i]]
                        0 <= i < all_adds.len() && all_adds[i].0@ == k;
                    assert(o.adds.contains_key(all_adds[i].0@));
                } else {
                    assert(self@.adds.contains_key(k) == d0.adds.contains_key(k));
                }
            }
            assert(self@.adds =~= merged_adds(d0.adds, o.adds));
        }

        let mut remove_entries = remove_store_entries(&other.remove_set);
        let ghost all_removes = remove_entries@;
        while remove_entries.len() > 0
            invariant
                d0 == old(self)@,
                o == other@,
                remove_entries@ == all_removes.subrange(0, remove_entries@.len() as int),
                remove_entries@.len() <= all_removes.len(),
                forall|i: int|
                    #![trigger all_removes[i]]
                    0 <= i < all_removes.len() ==> o.removes.contains_key(all_removes[i].0@)
                        && o.removes[all_removes[i].0@] == all_removes[i].1,
                forall|k: Seq<char>|
                    o.removes.contains_key(k) ==> exists|i: int|
                        #![trigger all_removes[i]]
                        0 <= i < all_removes.len() && all_removes[i].0@ == k,
                forall|i: int, j: int|
                    #![trigger all_removes[i], all_removes[j]]
                    0 <= i < j < all_removes.len() ==> all_removes[i].0@ != all_removes[j].0@,
                self@.adds == merged_adds(d0.adds, o.adds),
                forall|k: Seq<char>|
                    #[trigger] replayed_remove(all_removes, remove_entries@.len() as int, k) ==> {
                        &&& self@.removes.contains_key(k)
                        &&& self@.removes[k] == merged_removes(d0.removes, o.removes)[k]
                    },
                forall|k: Seq<char>|
                    !replayed_remove(all_removes, remove_entries@.len() as int, k) ==> {
                        &&& #[trigger] self@.removes.contains_key(k) == d0.removes.contains_key(k)
                        &&& (d0.removes.contains_key(k) ==> self@.removes[k] == d0.removes[k])
                    },
            decreases remove_entries.len(),
        {
            let ghost prev = self@;
            let ghost n = remove_entries@.len() as int;
            let entry = remove_entries.pop().unwrap();
            let stamp = Timestamp::from_value(entry.1);
            self.remove(&entry.0, stamp);
            proof {
                assert(remove_entries@ =~= all_removes.subrange(0, n - 1));
                assert forall|k: Seq<char>| #[trigger]
                    replayed_remove(all_removes, n - 1, k) implies {
                    &&& self@.removes.contains_key(k)
                    &&& self@.removes[k] == merged_removes(d0.removes, o.removes)[k]
                } by {
                    lemma_replay_remove_step(all_removes, n - 1, prev, self@, d0, o, k);
                }
                assert forall|k: Seq<char>| !replayed_remove(all_removes, n - 1, k) implies {
                    &&& #[trigger] self@.removes.contains_key(k) == d0.removes.contains_key(k)
                    &&& (d0.removes.contains_key(k) ==> self@.removes[k] == d0.removes[k])
                } by {
                    lemma_replay_remove_step(all_removes, n - 1, prev, self@, d0, o, k);
                }
            }
        }
        proof {
            assert forall|k: Seq<char>| #[trigger]
                merged_removes(d0.removes, o.removes).contains_key(
                k,
            ) implies self@.removes.contains_key(k) && self@.removes[k] == merged_removes(
                d0.removes,
                o.removes,
            )[k] by {
                if o.removes.contains_key(k) {
                    let i = choose|i: int|
                        #![trigger all_removes[i]]
                        0 <= i < all_removes.len() && all_removes[i].0@ == k;
                    assert(0 <= i < all_removes.len() && all_removes[i].0@ == k);
                    assert(replayed_remove(all_removes, 0, k));
                } else {
                    assert(!replayed_remove(all_removes, 0, k)) by {
                        if replayed_remove(all_removes, 0, k) {
                            let i = choose|i: int|
                                #![trigger all_removes[i]]
                                0 <= i < all_removes.len() && all_removes[i].0@ == k;
                            assert(o.removes.contains_key(all_removes[i].0@));
                        }
                    }
                    assert(self@.removes.contains_key(k) == d0.removes.contains_key(k));
                }
            }
            assert forall|k: Seq<char>| #[trigger]
                self@.removes.contains_key(k) implies merged_removes(
                d0.removes,
                o.removes,
            ).contains_key(k) by {
                if replayed_remove(all_removes, 0, k) {
                    let i = choose|i: int|
                        #![trigger all_removes[i]]
                        0 <= i < all_removes.len() && all_removes[i].0@ == k;
                    assert(o.removes.contains_key(all_removes[i].0@));
                } else {
                    assert(self@.removes.contains_key(k) == d0.removes.contains_key(k));
                }
            }
            assert(self@.removes =~= merged_removes(d0.removes, o.removes));
            assert(self@ =~= spec_merge(d0, o));
        }
    }

    /// Returns the keys that currently carry an add-record, whether or not
    /// they are presently visible to `lookup`: a direct reflection of
    /// add-set membership, each key exactly once, in unspecified order.
    pub fn keys(&self) -> (r: Vec<String>)
        ensures
            forall|i: int| #![trigger r@[i]] 0 <= i < r@.len() ==> self@.adds.contains_key(r@[i]@),
            forall|k: Seq<char>|
                self@.adds.contains_key(k) ==> exists|i: int|
                    #![trigger r@[i]]
                    0 <= i < r@.len() && r@[i]@ == k,
            forall|i: int, j: int|
                #![trigger r@[i], r@[j]]
                0 <= i < j < r@.len() ==> r@[i]@ != r@[j]@,
    {
        let mut entries = add_store_entries(&self.add_set);
        let ghost all = entries@;
        let mut r: Vec<String> = Vec::new();
        while entries.len() > 0
            invariant
                entries@ == all.subrange(0, entries@.len() as int),
                entries@.len() <= all.len(),
                r@.len() + entries@.len() == all.len(),
                forall|i: int|
                    #![trigger all[i]]
                    0 <= i < all.len() ==> self@.adds.contains_key(all[i].0@),
                forall|k: Seq<char>|
                    self@.adds.contains_key(k) ==> exists|i: int|
                        #![trigger all[i]]
                        0 <= i < all.len() && all[i].0@ == k,
                forall|i: int, j: int|
                    #![trigger all[i], all[j]]
                    0 <= i < j < all.len() ==> all[i].0@ != all[j].0@,
                forall|i: int|
                    #![trigger r@[i]]
                    0 <= i < r@.len() ==> r@[i]@ == all[all.len() - 1 - i].0@,
            decreases entries.len(),
        {
            let ghost n = entries@.len() as int;
            let entry = entries.pop().unwrap();
            r.push(entry.0);
            proof {
                assert(entries@ =~= all.subrange(0, n - 1));
            }
        }
        proof {
            assert forall|k: Seq<char>| self@.adds.contains_key(k) implies exists|i: int|
                #![trigger r@[i]]
                0 <= i < r@.len() && r@[i]@ == k by {
                let j = choose|j: int| #![trigger all[j]] 0 <= j < all.len() && all[j].0@ == k;
                assert(r@[all.len() - 1 - j]@ == k);
            }
            assert forall|i: int, j: int|
                #![trigger r@[i], r@[j]]
                0 <= i < j < r@.len() implies r@[i]@ != r@[j]@ by {
                assert(r@[i]@ == all[all.len() - 1 - i].0@);
                assert(r@[j]@ == all[all.len() - 1 - j].0@);
            }
        }
        r
    }
}

impl Default for LWWElementDictionary {
    /// A new empty dictionary.
    fn default() -> (d: Self)
        ensures
            d@ == empty_dict(),
    {
        Self::new()
    }
}

/// After replaying `entries[at]` on top of a state that has replayed
/// exactly `entries[at + 1 ..]`, the state has replayed exactly
/// `entries[at ..]`: per key, either the merged record is reached (for
/// replayed keys) or the starting record is still held (for the rest).
proof fn lemma_replay_add_step(
    entries: Seq<(String, Arc<String>, u64)>,
    at: int,
    prev: DictView,
    cur: DictView,
    d0: DictView,
    o: DictView,
    k: Seq<char>,
)
    requires
        0 <= at < entries.len(),
        forall|i: int|
            #![trigger entries[i]]
            0 <= i < entries.len() ==> o.adds.contains_key(entries[i].0@)
                && o.adds[entries[i].0@] == (entries[i].1@, entries[i].2),
        forall|i: int, j: int|
            #![trigger entries[i], entries[j]]
            0 <= i < j < entries.len() ==> entries[i].0@ != entries[j].0@,
        forall|q: Seq<char>|
            #[trigger] replayed_add(entries, at + 1, q) ==> {
                &&& prev.adds.contains_key(q)
                &&& prev.adds[q] == merged_adds(d0.adds, o.adds)[q]
            },
        forall|q: Seq<char>|
            !replayed_add(entries, at + 1, q) ==> {
                &&& #[trigger] prev.adds.contains_key(q) == d0.adds.contains_key(q)
                &&& (d0.adds.contains_key(q) ==> prev.adds[q] == d0.adds[q])
            },
        cur == spec_add(prev, entries[at].0@, entries[at].1@, entries[at].2),
    ensures
        replayed_add(entries, at, k) ==> {
            &&& cur.adds.contains_key(k)
            &&& cur.adds[k] == merged_adds(d0.adds, o.adds)[k]
        },
        !replayed_add(entries, at, k) ==> {
            &&& cur.adds.contains_key(k) == d0.adds.contains_key(k)
            &&& (d0.adds.contains_key(k) ==> cur.adds[k] == d0.adds[k])
        },
{
    let k0 = entries[at].0@;
    assert(o.adds.contains_key(k0) && o.adds[k0] == (entries[at].1@, entries[at].2));
    assert(!replayed_add(entries, at + 1, k0)) by {
        if replayed_add(entries, at + 1, k0) {
            let i = choose|i: int|
                #![trigger entries[i]]
                at + 1 <= i < entries.len() && entries[i].0@ == k0;
            assert(entries[at].0@ != entries[i].0@);
        }
    }
    assert(prev.adds.contains_key(k0) == d0.adds.contains_key(k0));
    if k == k0 {
        assert(replayed_add(entries, at, k)) by {
            assert(at <= at < entries.len() && entries[at].0@ == k);
        }
        assert(merged_adds(d0.adds, o.adds).contains_key(k0));
        if d0.adds.contains_key(k0) {
            assert(prev.adds[k0] == d0.adds[k0]);
            assert(merged_adds(d0.adds, o.adds)[k0] == lww_max(d0.adds[k0], o.adds[k0]));
            assert(cur.adds[k0] == lww_max(d0.adds[k0], o.adds[k0]));
        } else {
            assert(cur.adds[k0] == o.adds[k0]);
            assert(merged_adds(d0.adds, o.adds)[k0] == o.adds[k0]);
        }
    } else {
        assert(cur.adds.contains_key(k) == prev.adds.contains_key(k));
        assert(prev.adds.contains_key(k) ==> cur.adds[k] == prev.adds[k]);
        if replayed_add(entries, at, k) {
            assert(replayed_add(entries, at + 1, k)) by {
                let i = choose|i: int|
                    #![trigger entries[i]]
                    at <= i < entries.len() && entries[i].0@ == k;
                assert(i != at);
                assert(at + 1 <= i < entries.len() && entries[i].0@ == k);
            }
        } else {
            assert(!replayed_add(entries, at + 1, k)) by {
                if replayed_add(entries, at + 1, k) {
                    let i = choose|i: int|
                        #![trigger entries[i]]
                        at + 1 <= i < entries.len() && entries[i].0@ == k;
                    assert(at <= i < entries.len() && entries[i].0@ == k);
                }
            }
            assert(prev.adds.contains_key(k) == d0.adds.contains_key(k));
        }
    }
}

/// As `lemma_replay_add_step`, for the remove-record entries.
proof fn lemma_replay_remove_step(
    entries: Seq<(String, u64)>,
    at: int,
    prev: DictView,
    cur: DictView,
    d0: DictView,
    o: DictView,
    k: Seq<char>,
)
    requires
        0 <= at < entries.len(),
        forall|i: int|
            #![trigger entries[i]]
            0 <= i < entries.len() ==> o.removes.contains_key(entries[i].0@)
                && o.removes[entries[i].0@] == entries[i].1,
        forall|i: int, j: int|
            #![trigger entries[i], entries[j]]
            0 <= i < j < entries.len() ==> entries[i].0@ != entries[j].0@,
        forall|q: Seq<char>|
            #[trigger] replayed_remove(entries, at + 1, q) ==> {
                &&& prev.removes.contains_key(q)
                &&& prev.removes[q] == merged_removes(d0.removes, o.removes)[q]
            },
        forall|q: Seq<char>|
            !replayed_remove(entries, at + 1, q) ==> {
                &&& #[trigger] prev.removes.contains_key(q) == d0.removes.contains_key(q)
                &&& (d0.removes.contains_key(q) ==> prev.removes[q] == d0.removes[q])
            },
        cur == spec_remove(prev, entries[at].0@, entries[at].1),
    ensures
        replayed_remove(entries, at, k) ==> {
            &&& cur.removes.contains_key(k)
            &&& cur.removes[k] == merged_removes(d0.removes, o.removes)[k]
        },
        !replayed_remove(entries, at, k) ==> {
            &&& cur.removes.contains_key(k) == d0.removes.contains_key(k)
            &&& (d0.removes.contains_key(k) ==> cur.removes[k] == d0.removes[k])
        },
{
    let k0 = entries[at].0@;
    assert(o.removes.contains_key(k0) && o.removes[k0] == entries[at].1);
    assert(!replayed_remove(entries, at + 1, k0)) by {
        if replayed_remove(entries, at + 1, k0) {
            let i = choose|i: int|
                #![trigger entries[i]]
                at + 1 <= i < entries.len() && entries[i].0@ == k0;
            assert(entries[at].0@ != entries[i].0@);
        }
    }
    assert(prev.removes.contains_key(k0) == d0.removes.contains_key(k0));
    if k == k0 {
        assert(replayed_remove(entries, at, k)) by {
            assert(at <= at < entries.len() && entries[at].0@ == k);
        }
        assert(merged_removes(d0.removes, o.removes).contains_key(k0));
        if d0.removes.contains_key(k0) {
            assert(prev.removes[k0] == d0.removes[k0]);
            assert(cur.removes[k0] == merged_removes(d0.removes, o.removes)[k0]);
        } else {
            assert(cur.removes[k0] == o.removes[k0]);
            assert(merged_removes(d0.removes, o.removes)[k0] == o.removes[k0]);
        }
    } else {
        assert(cur.removes.contains_key(k) == prev.removes.contains_key(k));
        assert(prev.removes.contains_key(k) ==> cur.removes[k] == prev.removes[k]);
        if replayed_remove(entries, at, k) {
            assert(replayed_remove(entries, at + 1, k)) by {
                let i = choose|i: int|
                    #![trigger entries[i]]
                    at <= i < entries.len() && entries[i].0@ == k;
                assert(i != at);
                assert(at + 1 <= i < entries.len() && entries[i].0@ == k);
            }
        } else {
            assert(!replayed_remove(entries, at + 1, k)) by {
                if replayed_remove(entries, at + 1, k) {
                    let i = choose|i: int|
                        #![trigger entries[i]]
                        at + 1 <= i < entries.len() && entries[i].0@ == k;
                    assert(at <= i < entries.len() && entries[i].0@ == k);
                }
            }
            assert(prev.removes.contains_key(k) == d0.removes.contains_key(k));
        }
    }
}

} // verus!
