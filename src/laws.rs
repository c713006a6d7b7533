//! What holds of every sequence of writes and of every recovery.
use vstd::prelude::*;

use crate::index::{index_from, index_of, lemma_index_from_overlay};
use crate::record::{is_key, lemma_decode_record, record_bytes, NEWLINE};
use crate::store::{append_record, lemma_index_after_put, lookup_value};
use crate::words::is_token;

verus! {

/// The log after putting each `(key, value)` of `ops` in turn.
pub open spec fn put_all(log: Seq<u8>, ops: Seq<(Seq<u8>, Seq<u8>)>) -> Seq<u8>
    decreases ops.len(),
{
    if ops.len() == 0 {
        log
    } else {
        append_record(put_all(log, ops.drop_last()), ops.last().0, ops.last().1)
    }
}

/// The number of bytes the records of `ops` take.
pub open spec fn records_len(ops: Seq<(Seq<u8>, Seq<u8>)>) -> nat
    decreases ops.len(),
{
    if ops.len() == 0 {
        0
    } else {
        records_len(ops.drop_last()) + record_bytes(ops.last().0, ops.last().1).len()
    }
}

/// Every `(key, value)` of `ops` is one that `put` accepts.
pub open spec fn all_valid(ops: Seq<(Seq<u8>, Seq<u8>)>) -> bool {
    forall|i: int| 0 <= i < ops.len() ==> is_key(#[trigger] ops[i].0) && is_token(ops[i].1)
}

/// Round trip: after `put(k, v)` on any log, `get(k)` finds `v`.
pub proof fn lemma_round_trip(log: Seq<u8>, k: Seq<u8>, v: Seq<u8>)
    requires
        is_key(k),
        is_token(v),
    ensures
        lookup_value(append_record(log, k, v), k) == Some(v),
{
    lemma_index_after_put(log, k, v);
    lemma_decode_record(k, v);
}

/// Last write wins: after `put(k, v1)` and then `put(k, v2)`, `get(k)` finds
/// `v2`. What `get` finds depends on the log's bytes alone, so a store
/// recovered from the same log finds `v2` too.
pub proof fn lemma_last_write_wins(log: Seq<u8>, k: Seq<u8>, v1: Seq<u8>, v2: Seq<u8>)
    requires
        is_key(k),
        is_token(v1),
        is_token(v2),
    ensures
        lookup_value(append_record(append_record(log, k, v1), k, v2), k) == Some(v2),
{
    lemma_round_trip(append_record(log, k, v1), k, v2);
}

/// Recovery is idempotent: replaying the log once more onto the index that
/// recovery rebuilt from it gives that same index.
pub proof fn lemma_recovery_idempotent(log: Seq<u8>)
    ensures
        index_from(log, 0, index_of(log)) == index_of(log),
{
    let idx = index_of(log);
    lemma_index_from_overlay(log, 0, idx, Map::empty());
    assert(idx.union_prefer_right(Map::empty()) =~= idx);
    assert(idx.union_prefer_right(idx) =~= idx);
}

/// Putting onto an empty log leaves a log of exactly the records, each one
/// complete.
pub proof fn lemma_put_all_len(ops: Seq<(Seq<u8>, Seq<u8>)>)
    requires
        all_valid(ops),
    ensures
        put_all(Seq::empty(), ops).len() == records_len(ops),
        ops.len() == 0 || put_all(Seq::empty(), ops).last() == NEWLINE,
    decreases ops.len(),
{
    if ops.len() > 0 {
        let prev = ops.drop_last();
        assert(all_valid(prev)) by {
            assert forall|i: int| 0 <= i < prev.len() implies is_key(#[trigger] prev[i].0)
                && is_token(prev[i].1) by {
                assert(prev[i] == ops[i]);
            }
        }
        assert(is_key(ops[ops.len() - 1].0));
        lemma_put_all_len(prev);
        lemma_decode_record(ops.last().0, ops.last().1);
    }
}

/// Offsets advance by record lengths: after putting each pair of `ops` onto
/// an empty log, the last key written is indexed at the sum of the lengths
/// of the records written before it.
pub proof fn lemma_offset_of_last_put(ops: Seq<(Seq<u8>, Seq<u8>)>)
    requires
        all_valid(ops),
        ops.len() > 0,
    ensures
        index_of(put_all(Seq::empty(), ops)).contains_key(ops.last().0),
        index_of(put_all(Seq::empty(), ops))[ops.last().0] == records_len(ops.drop_last()),
{
    let prev = ops.drop_last();
    assert(all_valid(prev)) by {
        assert forall|i: int| 0 <= i < prev.len() implies is_key(#[trigger] prev[i].0) && is_token(
            prev[i].1,
        ) by {
            assert(prev[i] == ops[i]);
        }
    }
    assert(is_key(ops[ops.len() - 1].0));
    lemma_put_all_len(prev);
    lemma_index_after_put(put_all(Seq::empty(), prev), ops.last().0, ops.last().1);
}

/// A miss is no error: after putting onto an empty log only pairs whose key
/// is not `k`, `get(k)` finds nothing.
pub proof fn lemma_never_written(ops: Seq<(Seq<u8>, Seq<u8>)>, k: Seq<u8>)
    requires
        all_valid(ops),
        forall|i: int| 0 <= i < ops.len() ==> (#[trigger] ops[i]).0 != k,
    ensures
        lookup_value(put_all(Seq::empty(), ops), k) is None,
    decreases ops.len(),
{
    if ops.len() == 0 {
        assert(index_of(Seq::empty()) == Map::<Seq<u8>, nat>::empty());
    } else {
        let prev = ops.drop_last();
        assert(all_valid(prev)) by {
            assert forall|i: int| 0 <= i < prev.len() implies is_key(#[trigger] prev[i].0)
                && is_token(prev[i].1) by {
                assert(prev[i] == ops[i]);
            }
        }
        assert forall|i: int| 0 <= i < prev.len() implies (#[trigger] prev[i]).0 != k by {
            assert(prev[i] == ops[i]);
        }
        assert(is_key(ops[ops.len() - 1].0));
        assert(ops[ops.len() - 1].0 != k);
        lemma_never_written(prev, k);
        lemma_index_after_put(put_all(Seq::empty(), prev), ops.last().0, ops.last().1);
    }
}

} // verus!
