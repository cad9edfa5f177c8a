//! What holds of the catalog whatever is applied to it.

use crate::index::{
    apply_batch, arrival_after, entry_at, is_live, is_retired, meta_or_zero, pick, selected,
    Entry,
};
use crate::key::{is_segment_key, Scope};
use crate::meta::{FileMeta, Record};
use vstd::prelude::*;

verus! {

/// What a record says of its key.
pub open spec fn entry_from(record: Record) -> Entry {
    Entry { meta: record.meta, deleted: record.deleted }
}

/// The last tombstone for `key` in `batch`, if there is one.
pub open spec fn last_tombstone(batch: Seq<Record>, key: Seq<char>) -> Option<Record>
    decreases batch.len(),
{
    if batch.len() == 0 {
        None
    } else if batch.last().key == key && batch.last().deleted {
        Some(batch.last())
    } else {
        last_tombstone(batch.drop_last(), key)
    }
}

/// The last record for `key` in `batch`, if there is one.
pub open spec fn last_record(batch: Seq<Record>, key: Seq<char>) -> Option<Record>
    decreases batch.len(),
{
    if batch.len() == 0 {
        None
    } else if batch.last().key == key {
        Some(batch.last())
    } else {
        last_record(batch.drop_last(), key)
    }
}

/// What is known of a segment key after `batch`, given what was known
/// before: the last tombstone of the batch if it has one; else what was
/// known, if that was a tombstone; else the last record of the batch; else
/// what was known.
pub open spec fn settled(current: Option<Entry>, batch: Seq<Record>, key: Seq<char>) -> Option<
    Entry,
> {
    match last_tombstone(batch, key) {
        Some(record) => Some(entry_from(record)),
        None => match current {
            Some(entry) if entry.deleted => current,
            _ => match last_record(batch, key) {
                Some(record) => Some(entry_from(record)),
                None => current,
            },
        },
    }
}

/// Whether every key of `index` is a segment key.
pub open spec fn valid_index(index: Map<Seq<char>, Entry>) -> bool {
    forall|key: Seq<char>| index.dom().contains(key) ==> is_segment_key(key)
}

/// Without a tombstone for `key` in `batch`, the last record for `key` is
/// none.
pub proof fn lemma_last_record_live(batch: Seq<Record>, key: Seq<char>)
    requires
        last_tombstone(batch, key) is None,
        last_record(batch, key) is Some,
    ensures
        !last_record(batch, key)->Some_0.deleted,
    decreases batch.len(),
{
    if batch.len() > 0 && batch.last().key != key {
        lemma_last_record_live(batch.drop_last(), key);
    }
}

/// A tombstone that `last_tombstone` finds is one, and for that key.
pub proof fn lemma_last_tombstone(batch: Seq<Record>, key: Seq<char>)
    requires
        last_tombstone(batch, key) is Some,
    ensures
        last_tombstone(batch, key)->Some_0.deleted,
        last_tombstone(batch, key)->Some_0.key == key,
    decreases batch.len(),
{
    if batch.len() > 0 && !(batch.last().key == key && batch.last().deleted) {
        lemma_last_tombstone(batch.drop_last(), key);
    }
}

/// What a batch does to one segment key depends on what was known of that
/// key and on the batch's records for it alone.
pub proof fn lemma_apply_settles(index: Map<Seq<char>, Entry>, batch: Seq<Record>, key: Seq<char>)
    requires
        is_segment_key(key),
    ensures
        entry_at(apply_batch(index, batch), key) == settled(entry_at(index, key), batch, key),
    decreases batch.len(),
{
    if batch.len() > 0 {
        let rest = batch.drop_last();
        let record = batch.last();
        lemma_apply_settles(index, rest, key);
        if record.key == key && !record.deleted {
            if last_tombstone(rest, key) is Some {
                lemma_last_tombstone(rest, key);
            } else if last_record(rest, key) is Some {
                lemma_last_record_live(rest, key);
            }
        }
    }
}

/// A batch leaves what is known of a key that is no segment key as it was.
pub proof fn lemma_apply_skips(index: Map<Seq<char>, Entry>, batch: Seq<Record>, key: Seq<char>)
    requires
        !is_segment_key(key),
    ensures
        entry_at(apply_batch(index, batch), key) == entry_at(index, key),
    decreases batch.len(),
{
    if batch.len() > 0 {
        lemma_apply_skips(index, batch.drop_last(), key);
    }
}

/// A batch keeps every key that the index knows.
pub proof fn lemma_known_stays(index: Map<Seq<char>, Entry>, batch: Seq<Record>, key: Seq<char>)
    requires
        index.dom().contains(key),
    ensures
        apply_batch(index, batch).dom().contains(key),
    decreases batch.len(),
{
    if batch.len() > 0 {
        lemma_known_stays(index, batch.drop_last(), key);
    }
}

/// After a batch the index knows every segment key of the batch.
pub proof fn lemma_batch_known(index: Map<Seq<char>, Entry>, batch: Seq<Record>, i: int)
    requires
        0 <= i < batch.len(),
        is_segment_key(batch[i].key),
    ensures
        apply_batch(index, batch).dom().contains(batch[i].key),
    decreases batch.len(),
{
    let rest = batch.drop_last();
    if i < batch.len() - 1 {
        assert(rest[i] == batch[i]);
        lemma_batch_known(index, rest, i);
    }
}

/// A batch whose segment keys are all known adds no key to any partition.
pub proof fn lemma_no_arrivals(
    order: Seq<Seq<char>>,
    index: Map<Seq<char>, Entry>,
    batch: Seq<Record>,
    scope: Scope,
)
    requires
        forall|i: int|
            0 <= i < batch.len() && is_segment_key((#[trigger] batch[i]).key)
                ==> index.dom().contains(batch[i].key),
    ensures
        arrival_after(order, index, batch, scope) == order,
    decreases batch.len(),
{
    if batch.len() > 0 {
        let rest = batch.drop_last();
        assert forall|i: int|
            0 <= i < rest.len() && is_segment_key((#[trigger] rest[i]).key)
                implies index.dom().contains(rest[i].key) by {
            assert(rest[i] == batch[i]);
        }
        lemma_no_arrivals(order, index, rest, scope);
        let record = batch[batch.len() - 1];
        if is_segment_key(record.key) {
            lemma_known_stays(index, rest, record.key);
        }
    }
}

/// Applying a batch twice gives the index that applying it once gives, with
/// the keys of every partition in the same order, and so every query
/// returns after the second time what it returns after the first.
pub proof fn lemma_apply_idempotent(index: Map<Seq<char>, Entry>, batch: Seq<Record>)
    ensures
        apply_batch(apply_batch(index, batch), batch) == apply_batch(index, batch),
        forall|order: Seq<Seq<char>>, scope: Scope|
            arrival_after(
                #[trigger] arrival_after(order, index, batch, scope),
                apply_batch(index, batch),
                batch,
                scope,
            ) == arrival_after(order, index, batch, scope),
        forall|order: Seq<Seq<char>>, scope: Scope, time_min: i64, time_max: i64|
            pick(
                arrival_after(
                    arrival_after(order, index, batch, scope),
                    apply_batch(index, batch),
                    batch,
                    scope,
                ),
                apply_batch(apply_batch(index, batch), batch),
                time_min,
                time_max,
            ) == #[trigger] pick(
                arrival_after(order, index, batch, scope),
                apply_batch(index, batch),
                time_min,
                time_max,
            ),
        forall|
            key: Seq<char>,
            org: Seq<char>,
            stream_name: Seq<char>,
            stream_type: Seq<char>,
            time_min: i64,
            time_max: i64,
        |
            selected(
                apply_batch(apply_batch(index, batch), batch),
                key,
                org,
                stream_name,
                stream_type,
                time_min,
                time_max,
            ) == selected(
                apply_batch(index, batch),
                key,
                org,
                stream_name,
                stream_type,
                time_min,
                time_max,
            ),
{
    let once = apply_batch(index, batch);
    let twice = apply_batch(once, batch);
    assert forall|key: Seq<char>| entry_at(twice, key) == entry_at(once, key) by {
        if is_segment_key(key) {
            lemma_apply_settles(index, batch, key);
            lemma_apply_settles(once, batch, key);
            if last_tombstone(batch, key) is Some {
                lemma_last_tombstone(batch, key);
            } else if last_record(batch, key) is Some {
                lemma_last_record_live(batch, key);
            }
        } else {
            lemma_apply_skips(once, batch, key);
        }
    }
    assert forall|key: Seq<char>| twice.dom().contains(key) == once.dom().contains(key) by {
        assert(entry_at(twice, key) == entry_at(once, key));
    }
    assert forall|key: Seq<char>| twice.dom().contains(key) implies twice[key] == once[key] by {
        assert(entry_at(twice, key) == entry_at(once, key));
    }
    assert(twice =~= once);
    assert forall|i: int|
        0 <= i < batch.len() && is_segment_key((#[trigger] batch[i]).key)
            implies once.dom().contains(batch[i].key) by {
        lemma_batch_known(index, batch, i);
    }
    assert forall|order: Seq<Seq<char>>, scope: Scope|
        arrival_after(#[trigger] arrival_after(order, index, batch, scope), once, batch, scope)
            == arrival_after(order, index, batch, scope) by {
        lemma_no_arrivals(arrival_after(order, index, batch, scope), once, batch, scope);
    }
}

/// A batch keeps every key of the index a segment key.
pub proof fn lemma_apply_keeps_valid(index: Map<Seq<char>, Entry>, batch: Seq<Record>)
    requires
        valid_index(index),
    ensures
        valid_index(apply_batch(index, batch)),
    decreases batch.len(),
{
    if batch.len() > 0 {
        lemma_apply_keeps_valid(index, batch.drop_last());
    }
}

/// Retirement is final: a retired key stays retired whatever is applied.
pub proof fn lemma_retired_stays(index: Map<Seq<char>, Entry>, batch: Seq<Record>, key: Seq<char>)
    requires
        is_retired(index, key),
    ensures
        is_retired(apply_batch(index, batch), key),
    decreases batch.len(),
{
    if batch.len() > 0 {
        lemma_retired_stays(index, batch.drop_last(), key);
    }
}

/// A batch with a tombstone for a segment key leaves that key retired.
pub proof fn lemma_tombstone_retires(index: Map<Seq<char>, Entry>, batch: Seq<Record>, i: int)
    requires
        0 <= i < batch.len(),
        batch[i].deleted,
        is_segment_key(batch[i].key),
    ensures
        is_retired(apply_batch(index, batch), batch[i].key),
    decreases batch.len(),
{
    let rest = batch.drop_last();
    if i < batch.len() - 1 {
        assert(rest[i] == batch[i]);
        lemma_tombstone_retires(index, rest, i);
    }
}

/// Once a tombstone for a key has been applied, whatever is applied later,
/// no query returns the key and the key counts as zero in every sum of
/// sizes.
pub proof fn lemma_tombstone_excluded(
    index: Map<Seq<char>, Entry>,
    batch: Seq<Record>,
    i: int,
    later: Seq<Record>,
)
    requires
        valid_index(index),
        0 <= i < batch.len(),
        batch[i].deleted,
    ensures
        meta_or_zero(apply_batch(apply_batch(index, batch), later), batch[i].key)
            == FileMeta::zero(),
        forall|
            org: Seq<char>,
            stream_name: Seq<char>,
            stream_type: Seq<char>,
            time_min: i64,
            time_max: i64,
        |
            !selected(
                apply_batch(apply_batch(index, batch), later),
                batch[i].key,
                org,
                stream_name,
                stream_type,
                time_min,
                time_max,
            ),
{
    let key = batch[i].key;
    let once = apply_batch(index, batch);
    if is_segment_key(key) {
        lemma_tombstone_retires(index, batch, i);
        lemma_retired_stays(once, later, key);
    } else {
        lemma_apply_keeps_valid(index, batch);
        lemma_apply_keeps_valid(once, later);
    }
}

/// Whether two batches agree on the metadata of every key for which both
/// have a record that is no tombstone.
pub open spec fn agree(first: Seq<Record>, second: Seq<Record>) -> bool {
    forall|i: int, j: int|
        0 <= i < first.len() && 0 <= j < second.len() && (#[trigger] first[i]).key == (
        #[trigger] second[j]).key && !first[i].deleted && !second[j].deleted ==> first[i].meta
            == second[j].meta
}

/// The record that `last_record` finds is a record of the batch, for that
/// key.
pub proof fn lemma_last_record_member(batch: Seq<Record>, key: Seq<char>) -> (i: int)
    requires
        last_record(batch, key) is Some,
    ensures
        0 <= i < batch.len(),
        batch[i] == last_record(batch, key)->Some_0,
        batch[i].key == key,
    decreases batch.len(),
{
    if batch.last().key == key {
        batch.len() - 1
    } else {
        let i = lemma_last_record_member(batch.drop_last(), key);
        assert(batch.drop_last()[i] == batch[i]);
        i
    }
}

/// The order in which two batches are applied does not show: where they
/// agree on the metadata of the keys they share, a key is live, retired or
/// unknown after the one order as after the other, and counts with the same
/// metadata. A tombstone in either batch retires the key in both orders.
pub proof fn lemma_apply_order_free(
    index: Map<Seq<char>, Entry>,
    first: Seq<Record>,
    second: Seq<Record>,
    key: Seq<char>,
)
    requires
        agree(first, second),
    ensures
        is_live(apply_batch(apply_batch(index, first), second), key) == is_live(
            apply_batch(apply_batch(index, second), first),
            key,
        ),
        is_retired(apply_batch(apply_batch(index, first), second), key) == is_retired(
            apply_batch(apply_batch(index, second), first),
            key,
        ),
        meta_or_zero(apply_batch(apply_batch(index, first), second), key) == meta_or_zero(
            apply_batch(apply_batch(index, second), first),
            key,
        ),
{
    let after_first = apply_batch(index, first);
    let after_second = apply_batch(index, second);
    let one = apply_batch(after_first, second);
    let other = apply_batch(after_second, first);
    if is_segment_key(key) {
        lemma_apply_settles(index, first, key);
        lemma_apply_settles(index, second, key);
        lemma_apply_settles(after_first, second, key);
        lemma_apply_settles(after_second, first, key);
        if last_tombstone(first, key) is Some {
            lemma_last_tombstone(first, key);
        }
        if last_tombstone(second, key) is Some {
            lemma_last_tombstone(second, key);
        }
        if last_tombstone(first, key) is None && last_record(first, key) is Some {
            lemma_last_record_live(first, key);
        }
        if last_tombstone(second, key) is None && last_record(second, key) is Some {
            lemma_last_record_live(second, key);
        }
        if last_record(first, key) is Some && last_record(second, key) is Some {
            let i = lemma_last_record_member(first, key);
            let j = lemma_last_record_member(second, key);
            assert(first[i].key == second[j].key);
        }
        assert(entry_at(one, key) is Some == entry_at(other, key) is Some);
    } else {
        lemma_apply_skips(index, first, key);
        lemma_apply_skips(index, second, key);
        lemma_apply_skips(after_first, second, key);
        lemma_apply_skips(after_second, first, key);
    }
}

} // verus!
