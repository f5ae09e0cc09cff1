//! The convergence laws of the dictionary, proved over the mathematical
//! view: the tie-break rules for add against add and add against remove,
//! resurrection, and the algebra of merge (idempotence, commutativity on
//! histories free of exact add-timestamp ties, and the documented tie
//! asymmetry).

use vstd::prelude::*;

use crate::dict::DictView;
use crate::dict::lww_max;
use crate::dict::merged_adds;
use crate::dict::merged_removes;
use crate::dict::spec_add;
use crate::dict::spec_lookup;
use crate::dict::spec_merge;
use crate::dict::spec_remove;

verus! {

/// Tie-break on add: after `add(k, v1, t)` then `add(k, v2, t)` on a key
/// with no prior records, lookup returns `v1` — overwriting requires a
/// strictly greater timestamp.
pub proof fn lemma_add_tie_break(d: DictView, k: Seq<char>, v1: Seq<char>, v2: Seq<char>, t: u64)
    requires
        v1 != v2,
        !d.adds.contains_key(k),
        !d.removes.contains_key(k),
    ensures
        spec_lookup(spec_add(spec_add(d, k, v1, t), k, v2, t), k) == Some(v1),
{
}

/// Add wins an exact timestamp tie against remove: after `add(k, v, t)`
/// then `remove(k, t)` on a key with no prior records, the key is still
/// present with value `v`.
pub proof fn lemma_add_wins_equal_timestamp(d: DictView, k: Seq<char>, v: Seq<char>, t: u64)
    requires
        !d.adds.contains_key(k),
        !d.removes.contains_key(k),
    ensures
        spec_lookup(spec_remove(spec_add(d, k, v, t), k, t), k) == Some(v),
{
}

/// Remove wins on a strictly later timestamp: after `add(k, v, t1)` then
/// `remove(k, t2)` with `t2 > t1` on a key with no prior records, the key
/// is absent.
pub proof fn lemma_remove_wins_later(d: DictView, k: Seq<char>, v: Seq<char>, t1: u64, t2: u64)
    requires
        t2 > t1,
        !d.adds.contains_key(k),
        !d.removes.contains_key(k),
    ensures
        spec_lookup(spec_remove(spec_add(d, k, v, t1), k, t2), k) is None,
{
}

/// Resurrection: after `add(k, v1, t1)`, `remove(k, t2)`, `add(k, v2, t3)`
/// with `t1 < t2 < t3` on a key with no prior records, lookup returns `v2`.
pub proof fn lemma_resurrection(
    d: DictView,
    k: Seq<char>,
    v1: Seq<char>,
    v2: Seq<char>,
    t1: u64,
    t2: u64,
    t3: u64,
)
    requires
        t1 < t2,
        t2 < t3,
        !d.adds.contains_key(k),
        !d.removes.contains_key(k),
    ensures
        spec_lookup(spec_add(spec_remove(spec_add(d, k, v1, t1), k, t2), k, v2, t3), k) == Some(
            v2,
        ),
{
}

/// Merge idempotence: merging the same remote state a second time leaves
/// the state of the first merge unchanged.
pub proof fn lemma_merge_idempotent(d: DictView, o: DictView)
    ensures
        spec_merge(spec_merge(d, o), o) == spec_merge(d, o),
{
    let m = spec_merge(d, o);
    assert forall|k: Seq<char>| #[trigger]
        merged_adds(m.adds, o.adds).contains_key(k) implies merged_adds(m.adds, o.adds)[k]
        == m.adds[k] && m.adds.contains_key(k) by {
        assert(merged_adds(d.adds, o.adds).contains_key(k));
    }
    assert(merged_adds(m.adds, o.adds) =~= m.adds);
    assert forall|k: Seq<char>| #[trigger]
        merged_removes(m.removes, o.removes).contains_key(k) implies merged_removes(
        m.removes,
        o.removes,
    )[k] == m.removes[k] && m.removes.contains_key(k) by {
        assert(merged_removes(d.removes, o.removes).contains_key(k));
    }
    assert(merged_removes(m.removes, o.removes) =~= m.removes);
    assert(spec_merge(m, o) =~= m);
}

/// Merge commutativity on histories free of exact add-timestamp ties: if no
/// key carries the same add timestamp on both replicas, `a` merged with `b`
/// and `b` merged with `a` are the same state, so both replicas see the
/// same keys and values.
pub proof fn lemma_merge_commutes_on_distinct_stamps(a: DictView, b: DictView)
    requires
        forall|k: Seq<char>|
            #![trigger a.adds[k], b.adds[k]]
            a.adds.contains_key(k) && b.adds.contains_key(k) ==> a.adds[k].1 != b.adds[k].1,
    ensures
        spec_merge(a, b) == spec_merge(b, a),
        forall|k: Seq<char>|
            spec_lookup(spec_merge(a, b), k) == #[trigger] spec_lookup(spec_merge(b, a), k),
{
    assert forall|k: Seq<char>| #[trigger]
        merged_adds(a.adds, b.adds).contains_key(k) implies merged_adds(b.adds, a.adds).contains_key(
        k,
    ) && merged_adds(a.adds, b.adds)[k] == merged_adds(b.adds, a.adds)[k] by {
        if a.adds.contains_key(k) && b.adds.contains_key(k) {
            assert(a.adds[k].1 != b.adds[k].1);
            assert(lww_max(a.adds[k], b.adds[k]) == lww_max(b.adds[k], a.adds[k]));
        }
    }
    assert(merged_adds(a.adds, b.adds) =~= merged_adds(b.adds, a.adds));
    assert forall|k: Seq<char>| #[trigger]
        merged_removes(a.removes, b.removes).contains_key(k) implies merged_removes(
        b.removes,
        a.removes,
    ).contains_key(k) && merged_removes(a.removes, b.removes)[k] == merged_removes(
        b.removes,
        a.removes,
    )[k] by {
    }
    assert(merged_removes(a.removes, b.removes) =~= merged_removes(b.removes, a.removes));
    assert(spec_merge(a, b) =~= spec_merge(b, a));
}

/// Per key, the live add-record's timestamp never decreases across an add,
/// whether the add is accepted or ignored, and no key loses its add-record.
pub proof fn lemma_add_stamp_monotonic(
    d: DictView,
    key: Seq<char>,
    value: Seq<char>,
    stamp: u64,
    q: Seq<char>,
)
    requires
        d.adds.contains_key(q),
    ensures
        spec_add(d, key, value, stamp).adds.contains_key(q),
        spec_add(d, key, value, stamp).adds[q].1 >= d.adds[q].1,
{
}

/// Per key, the live tombstone's timestamp never decreases across a remove,
/// whether the remove is accepted or ignored, and no key loses its tombstone.
pub proof fn lemma_remove_stamp_monotonic(d: DictView, key: Seq<char>, stamp: u64, q: Seq<char>)
    requires
        d.removes.contains_key(q),
    ensures
        spec_remove(d, key, stamp).removes.contains_key(q),
        spec_remove(d, key, stamp).removes[q] >= d.removes[q],
{
}

/// One racing operation on a single key: an add carrying a value and a
/// timestamp, or a remove carrying a timestamp.
pub enum KeyOp {
    Add { value: Seq<char>, stamp: u64 },
    Remove { stamp: u64 },
}

/// Whether the operation is an add (as opposed to a remove).
pub open spec fn op_is_add(op: KeyOp) -> bool {
    match op {
        KeyOp::Add { .. } => true,
        KeyOp::Remove { .. } => false,
    }
}

/// The timestamp the operation carries.
pub open spec fn op_stamp(op: KeyOp) -> u64 {
    match op {
        KeyOp::Add { stamp, .. } => stamp,
        KeyOp::Remove { stamp } => stamp,
    }
}

/// The value an add operation carries.
pub open spec fn op_value(op: KeyOp) -> Seq<char> {
    match op {
        KeyOp::Add { value, .. } => value,
        KeyOp::Remove { .. } => Seq::empty(),
    }
}

/// The state after applying the operations to key `k`, first to last: the
/// serialization order the record sets impose on racing callers.
pub open spec fn apply_key_ops(d: DictView, k: Seq<char>, ops: Seq<KeyOp>) -> DictView
    decreases ops.len(),
{
    if ops.len() == 0 {
        d
    } else {
        let rest = apply_key_ops(d, k, ops.drop_last());
        match ops.last() {
            KeyOp::Add { value, stamp } => spec_add(rest, k, value, stamp),
            KeyOp::Remove { stamp } => spec_remove(rest, k, stamp),
        }
    }
}

/// After any sequence of operations on a key with no prior records, the
/// add-record (if any) is the one carried by an add operation of maximal
/// add timestamp, and the tombstone (if any) carries the maximal remove
/// timestamp — whatever order the operations arrived in.
pub proof fn lemma_key_ops_records(d: DictView, k: Seq<char>, ops: Seq<KeyOp>)
    requires
        !d.adds.contains_key(k),
        !d.removes.contains_key(k),
    ensures
        ({
            let e = apply_key_ops(d, k, ops);
            &&& (e.adds.contains_key(k) <==> exists|i: int|
                #![trigger ops[i]]
                0 <= i < ops.len() && op_is_add(ops[i]))
            &&& (e.adds.contains_key(k) ==> exists|i: int|
                #![trigger ops[i]]
                0 <= i < ops.len() && op_is_add(ops[i]) && e.adds[k] == (
                op_value(ops[i]),
                op_stamp(ops[i]),
                ) && (forall|j: int|
                    #![trigger ops[j]]
                    0 <= j < ops.len() && op_is_add(ops[j]) ==> op_stamp(ops[j]) <= op_stamp(
                        ops[i],
                    )))
            &&& (e.removes.contains_key(k) <==> exists|i: int|
                #![trigger ops[i]]
                0 <= i < ops.len() && !op_is_add(ops[i]))
            &&& (e.removes.contains_key(k) ==> exists|i: int|
                #![trigger ops[i]]
                0 <= i < ops.len() && !op_is_add(ops[i]) && e.removes[k] == op_stamp(ops[i]) && (
                forall|j: int|
                    #![trigger ops[j]]
                    0 <= j < ops.len() && !op_is_add(ops[j]) ==> op_stamp(ops[j]) <= op_stamp(
                        ops[i],
                    )))
        }),
    decreases ops.len(),
{
    if ops.len() == 0 {
    } else {
        let rest = ops.drop_last();
        let n = ops.len() as int;
        lemma_key_ops_records(d, k, rest);
        let e1 = apply_key_ops(d, k, rest);
        let e = apply_key_ops(d, k, ops);
        let last = ops.last();
        assert(forall|i: int| 0 <= i < n - 1 ==> rest[i] == #[trigger] ops[i]);
        assert(ops[n - 1] == last);
        if op_is_add(last) {
            assert(e == spec_add(e1, k, op_value(last), op_stamp(last)));
            assert(e.removes == e1.removes);
            lemma_exists_carry_over(ops, false);
            assert(e.adds.contains_key(k));
            if e1.adds.contains_key(k) {
                let i0 = choose|i: int|
                    #![trigger rest[i]]
                    0 <= i < rest.len() && op_is_add(rest[i]) && e1.adds[k] == (
                    op_value(rest[i]),
                    op_stamp(rest[i]),
                    ) && (forall|j: int|
                        #![trigger rest[j]]
                        0 <= j < rest.len() && op_is_add(rest[j]) ==> op_stamp(rest[j]) <= op_stamp(
                            rest[i],
                        ));
                if e1.adds[k].1 >= op_stamp(last) {
                    assert(e.adds[k] == (op_value(ops[i0]), op_stamp(ops[i0])));
                    assert forall|j: int|
                        0 <= j < n && op_is_add(#[trigger] ops[j]) implies op_stamp(ops[j])
                        <= op_stamp(ops[i0]) by {
                        if j < n - 1 {
                            assert(rest[j] == ops[j]);
                        }
                    }
                } else {
                    assert(e.adds[k] == (op_value(ops[n - 1]), op_stamp(ops[n - 1])));
                    assert forall|j: int|
                        0 <= j < n && op_is_add(#[trigger] ops[j]) implies op_stamp(ops[j])
                        <= op_stamp(ops[n - 1]) by {
                        if j < n - 1 {
                            assert(rest[j] == ops[j]);
                            assert(op_stamp(rest[j]) <= op_stamp(rest[i0]));
                        }
                    }
                }
            } else {
                assert(forall|i: int|
                    #![trigger rest[i]]
                    !(0 <= i < rest.len() && op_is_add(rest[i])));
                assert(e.adds[k] == (op_value(ops[n - 1]), op_stamp(ops[n - 1])));
                assert forall|j: int|
                    0 <= j < n && op_is_add(#[trigger] ops[j]) implies op_stamp(ops[j]) <= op_stamp(
                    ops[n - 1],
                ) by {
                    if j < n - 1 {
                        assert(rest[j] == ops[j]);
                    }
                }
            }
        } else {
            assert(e == spec_remove(e1, k, op_stamp(last)));
            assert(e.adds == e1.adds);
            lemma_exists_carry_over(ops, true);
            assert(e.removes.contains_key(k));
            if e1.removes.contains_key(k) {
                let i0 = choose|i: int|
                    #![trigger rest[i]]
                    0 <= i < rest.len() && !op_is_add(rest[i]) && e1.removes[k] == op_stamp(rest[i])
                        && (forall|j: int|
                        #![trigger rest[j]]
                        0 <= j < rest.len() && !op_is_add(rest[j]) ==> op_stamp(rest[j]) <= op_stamp(
                            rest[i],
                        ));
                if e1.removes[k] >= op_stamp(last) {
                    assert(e.removes[k] == op_stamp(ops[i0]));
                    assert forall|j: int|
                        0 <= j < n && !op_is_add(#[trigger] ops[j]) implies op_stamp(ops[j])
                        <= op_stamp(ops[i0]) by {
                        if j < n - 1 {
                            assert(rest[j] == ops[j]);
                        }
                    }
                } else {
                    assert(e.removes[k] == op_stamp(ops[n - 1]));
                    assert forall|j: int|
                        0 <= j < n && !op_is_add(#[trigger] ops[j]) implies op_stamp(ops[j])
                        <= op_stamp(ops[n - 1]) by {
                        if j < n - 1 {
                            assert(rest[j] == ops[j]);
                            assert(op_stamp(rest[j]) <= op_stamp(rest[i0]));
                        }
                    }
                }
            } else {
                assert(forall|i: int|
                    #![trigger rest[i]]
                    !(0 <= i < rest.len() && !op_is_add(rest[i])));
                assert(e.removes[k] == op_stamp(ops[n - 1]));
                assert forall|j: int|
                    0 <= j < n && !op_is_add(#[trigger] ops[j]) implies op_stamp(ops[j])
                    <= op_stamp(ops[n - 1]) by {
                    if j < n - 1 {
                        assert(rest[j] == ops[j]);
                    }
                }
            }
        }
    }
}

/// An operation of the wanted kind exists among `ops` iff one exists among
/// `ops.drop_last()` or the last operation is of that kind.
proof fn lemma_exists_carry_over(ops: Seq<KeyOp>, removes: bool)
    requires
        ops.len() > 0,
    ensures
        (exists|i: int| #![trigger ops[i]] 0 <= i < ops.len() && op_is_add(ops[i]) == !removes)
            <==> ((exists|i: int|
            #![trigger ops.drop_last()[i]]
            0 <= i < ops.drop_last().len() && op_is_add(ops.drop_last()[i]) == !removes)
            || op_is_add(ops.last()) == !removes),
{
    let rest = ops.drop_last();
    let n = ops.len() as int;
    if exists|i: int| #![trigger ops[i]] 0 <= i < n && op_is_add(ops[i]) == !removes {
        let i = choose|i: int| #![trigger ops[i]] 0 <= i < n && op_is_add(ops[i]) == !removes;
        if i < n - 1 {
            assert(rest[i] == ops[i]);
            assert(0 <= i < rest.len() && op_is_add(rest[i]) == !removes);
        } else {
            assert(ops.last() == ops[n - 1]);
        }
    }
    if exists|i: int| #![trigger rest[i]] 0 <= i < rest.len() && op_is_add(rest[i]) == !removes {
        let i = choose|i: int|
            #![trigger rest[i]]
            0 <= i < rest.len() && op_is_add(rest[i]) == !removes;
        assert(rest[i] == ops[i]);
        assert(0 <= i < n && op_is_add(ops[i]) == !removes);
    }
    if op_is_add(ops.last()) == !removes {
        assert(0 <= n - 1 < n && op_is_add(ops[n - 1]) == !removes);
    }
}

/// Racing adds and removes on one key with no prior records: if the single
/// operation carrying the strictly greatest timestamp of all is an add,
/// then whatever order the operations were applied in, the key ends up
/// present with exactly that add's value.
pub proof fn lemma_race_add_wins(d: DictView, k: Seq<char>, ops: Seq<KeyOp>, w: int)
    requires
        !d.adds.contains_key(k),
        !d.removes.contains_key(k),
        0 <= w < ops.len(),
        op_is_add(ops[w]),
        forall|j: int|
            #![trigger ops[j]]
            0 <= j < ops.len() && j != w ==> op_stamp(ops[j]) < op_stamp(ops[w]),
    ensures
        spec_lookup(apply_key_ops(d, k, ops), k) == Some(op_value(ops[w])),
{
    lemma_key_ops_records(d, k, ops);
    let e = apply_key_ops(d, k, ops);
    assert(e.adds.contains_key(k));
    let i = choose|i: int|
        #![trigger ops[i]]
        0 <= i < ops.len() && op_is_add(ops[i]) && e.adds[k] == (op_value(ops[i]), op_stamp(ops[i]))
            && (forall|j: int|
            #![trigger ops[j]]
            0 <= j < ops.len() && op_is_add(ops[j]) ==> op_stamp(ops[j]) <= op_stamp(ops[i]));
    assert(op_stamp(ops[w]) <= op_stamp(ops[i]));
    assert(i == w);
    if e.removes.contains_key(k) {
        let r = choose|i: int|
            #![trigger ops[i]]
            0 <= i < ops.len() && !op_is_add(ops[i]) && e.removes[k] == op_stamp(ops[i]) && (
            forall|j: int|
                #![trigger ops[j]]
                0 <= j < ops.len() && !op_is_add(ops[j]) ==> op_stamp(ops[j]) <= op_stamp(ops[i]));
        assert(r != w);
        assert(e.removes[k] < op_stamp(ops[w]));
    }
}

/// Racing adds and removes on one key with no prior records: if the single
/// operation carrying the strictly greatest timestamp of all is a remove,
/// then whatever order the operations were applied in, the key ends up
/// absent.
pub proof fn lemma_race_remove_wins(d: DictView, k: Seq<char>, ops: Seq<KeyOp>, w: int)
    requires
        !d.adds.contains_key(k),
        !d.removes.contains_key(k),
        0 <= w < ops.len(),
        !op_is_add(ops[w]),
        forall|j: int|
            #![trigger ops[j]]
            0 <= j < ops.len() && j != w ==> op_stamp(ops[j]) < op_stamp(ops[w]),
    ensures
        spec_lookup(apply_key_ops(d, k, ops), k) is None,
{
    lemma_key_ops_records(d, k, ops);
    let e = apply_key_ops(d, k, ops);
    assert(e.removes.contains_key(k));
    let r = choose|i: int|
        #![trigger ops[i]]
        0 <= i < ops.len() && !op_is_add(ops[i]) && e.removes[k] == op_stamp(ops[i]) && (
        forall|j: int|
            #![trigger ops[j]]
            0 <= j < ops.len() && !op_is_add(ops[j]) ==> op_stamp(ops[j]) <= op_stamp(ops[i]));
    assert(op_stamp(ops[w]) <= op_stamp(ops[r]));
    assert(r == w);
    if e.adds.contains_key(k) {
        let i = choose|i: int|
            #![trigger ops[i]]
            0 <= i < ops.len() && op_is_add(ops[i]) && e.adds[k] == (
            op_value(ops[i]),
            op_stamp(ops[i]),
            ) && (forall|j: int|
                #![trigger ops[j]]
                0 <= j < ops.len() && op_is_add(ops[j]) ==> op_stamp(ops[j]) <= op_stamp(ops[i]));
        assert(i != w);
        assert(e.adds[k].1 < op_stamp(ops[w]));
        assert(e.adds[k].1 < e.removes[k]);
    }
}

/// Scheduling independence of a race: two arrival orders of racing
/// operations on one key agree on the final visible state whenever the
/// operation carrying the strictly greatest timestamp is the same in both —
/// presence is decided by the global timestamp order, not by arrival order.
pub proof fn lemma_race_order_insensitive(
    d: DictView,
    k: Seq<char>,
    ops1: Seq<KeyOp>,
    ops2: Seq<KeyOp>,
    w1: int,
    w2: int,
)
    requires
        !d.adds.contains_key(k),
        !d.removes.contains_key(k),
        0 <= w1 < ops1.len(),
        0 <= w2 < ops2.len(),
        ops1[w1] == ops2[w2],
        forall|j: int|
            #![trigger ops1[j]]
            0 <= j < ops1.len() && j != w1 ==> op_stamp(ops1[j]) < op_stamp(ops1[w1]),
        forall|j: int|
            #![trigger ops2[j]]
            0 <= j < ops2.len() && j != w2 ==> op_stamp(ops2[j]) < op_stamp(ops2[w2]),
    ensures
        spec_lookup(apply_key_ops(d, k, ops1), k) == spec_lookup(apply_key_ops(d, k, ops2), k),
{
    if op_is_add(ops1[w1]) {
        lemma_race_add_wins(d, k, ops1, w1);
        lemma_race_add_wins(d, k, ops2, w2);
    } else {
        lemma_race_remove_wins(d, k, ops1, w1);
        lemma_race_remove_wins(d, k, ops2, w2);
    }
}

/// The documented asymmetry on an exact add-timestamp tie: when both
/// replicas hold an add-record for `k` at the very same timestamp, each
/// replica keeps its own pre-merge record after merging the other in.
pub proof fn lemma_merge_tie_asymmetry(a: DictView, b: DictView, k: Seq<char>)
    requires
        a.adds.contains_key(k),
        b.adds.contains_key(k),
        a.adds[k].1 == b.adds[k].1,
    ensures
        spec_merge(a, b).adds[k] == a.adds[k],
        spec_merge(b, a).adds[k] == b.adds[k],
{
}

} // verus!
