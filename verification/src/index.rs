//! The catalog as a mathematical map, and what applying records does to it.

use crate::key::{is_segment_key, scope_of, Scope};
use crate::meta::{FileMeta, Record};
use vstd::prelude::*;

verus! {

/// What the catalog knows of one segment key.
pub struct Entry {
    pub meta: FileMeta,
    pub deleted: bool,
}

/// What the catalog knows of `key`, if anything.
pub open spec fn entry_at(index: Map<Seq<char>, Entry>, key: Seq<char>) -> Option<Entry> {
    if index.dom().contains(key) {
        Some(index[key])
    } else {
        None
    }
}

/// The entry for a key after `incoming` has been applied to it. The incoming
/// record wins, except that a tombstone stays against a record that is none:
/// retirement is final.
pub open spec fn merge(current: Option<Entry>, incoming: Record) -> Entry {
    match current {
        Some(entry) if entry.deleted && !incoming.deleted => entry,
        _ => Entry { meta: incoming.meta, deleted: incoming.deleted },
    }
}

/// The catalog after one record has been applied. A record whose key is not
/// a segment key changes nothing.
pub open spec fn apply_record(index: Map<Seq<char>, Entry>, record: Record) -> Map<
    Seq<char>,
    Entry,
> {
    if is_segment_key(record.key) {
        index.insert(record.key, merge(entry_at(index, record.key), record))
    } else {
        index
    }
}

/// The catalog after the records of `batch` have been applied in order.
pub open spec fn apply_batch(index: Map<Seq<char>, Entry>, batch: Seq<Record>) -> Map<
    Seq<char>,
    Entry,
>
    decreases batch.len(),
{
    if batch.len() == 0 {
        index
    } else {
        apply_record(apply_batch(index, batch.drop_last()), batch.last())
    }
}

/// Whether `key` is known and not retired.
pub open spec fn is_live(index: Map<Seq<char>, Entry>, key: Seq<char>) -> bool {
    index.dom().contains(key) && !index[key].deleted
}

/// Whether `key` is known and retired.
pub open spec fn is_retired(index: Map<Seq<char>, Entry>, key: Seq<char>) -> bool {
    index.dom().contains(key) && index[key].deleted
}

/// Whether a query for the given partition and time window returns `key`:
/// the segment is live, lies in the partition, and its time span meets the
/// window.
pub open spec fn selected(
    index: Map<Seq<char>, Entry>,
    key: Seq<char>,
    org: Seq<char>,
    stream_name: Seq<char>,
    stream_type: Seq<char>,
    time_min: i64,
    time_max: i64,
) -> bool {
    &&& is_live(index, key)
    &&& is_segment_key(key)
    &&& scope_of(key) == (Scope { org, stream_type, stream_name })
    &&& index[key].meta.overlaps(time_min, time_max)
}

/// The metadata that counts for `key`: that of a live segment, and the zero
/// value for a key that is unknown or retired.
pub open spec fn meta_or_zero(index: Map<Seq<char>, Entry>, key: Seq<char>) -> FileMeta {
    if is_live(index, key) {
        index[key].meta
    } else {
        FileMeta::zero()
    }
}

/// The keys of `order`, in that order, that a query for the window
/// `[time_min, time_max]` returns: those of the live segments whose time
/// span meets the window.
pub open spec fn pick(
    order: Seq<Seq<char>>,
    index: Map<Seq<char>, Entry>,
    time_min: i64,
    time_max: i64,
) -> Seq<Seq<char>>
    decreases order.len(),
{
    if order.len() == 0 {
        Seq::empty()
    } else {
        let rest = pick(order.drop_last(), index, time_min, time_max);
        let key = order.last();
        if is_live(index, key) && index[key].meta.overlaps(time_min, time_max) {
            rest.push(key)
        } else {
            rest
        }
    }
}

/// The keys of the partition `scope`, in the order in which they became
/// known, after one record has been applied: a segment key of that
/// partition that was not known comes last.
pub open spec fn arrival_step(
    order: Seq<Seq<char>>,
    index: Map<Seq<char>, Entry>,
    record: Record,
    scope: Scope,
) -> Seq<Seq<char>> {
    if is_segment_key(record.key) && scope_of(record.key) == scope && !index.dom().contains(
        record.key,
    ) {
        order.push(record.key)
    } else {
        order
    }
}

/// The keys of the partition `scope`, in the order in which they became
/// known, after the records of `batch` have been applied in order.
pub open spec fn arrival_after(
    order: Seq<Seq<char>>,
    index: Map<Seq<char>, Entry>,
    batch: Seq<Record>,
    scope: Scope,
) -> Seq<Seq<char>>
    decreases batch.len(),
{
    if batch.len() == 0 {
        order
    } else {
        arrival_step(
            arrival_after(order, index, batch.drop_last(), scope),
            apply_batch(index, batch.drop_last()),
            batch.last(),
            scope,
        )
    }
}

/// A query over two indexes that know the same of every key of `order`
/// returns the same.
pub proof fn lemma_pick_agrees(
    order: Seq<Seq<char>>,
    first: Map<Seq<char>, Entry>,
    second: Map<Seq<char>, Entry>,
    time_min: i64,
    time_max: i64,
)
    requires
        forall|i: int|
            0 <= i < order.len() ==> entry_at(first, #[trigger] order[i]) == entry_at(
                second,
                order[i],
            ),
    ensures
        pick(order, first, time_min, time_max) == pick(order, second, time_min, time_max),
    decreases order.len(),
{
    if order.len() > 0 {
        let rest = order.drop_last();
        assert forall|i: int| 0 <= i < rest.len() implies entry_at(first, #[trigger] rest[i])
            == entry_at(second, rest[i]) by {
            assert(rest[i] == order[i]);
        }
        lemma_pick_agrees(rest, first, second, time_min, time_max);
        let key = order.last();
        assert(key == order[order.len() - 1]);
        assert(entry_at(first, key) == entry_at(second, key));
    }
}

/// What a query picks from `order` are keys of `order`, each picked once
/// where `order` has each once, and a key is picked exactly where it is
/// live and its time span meets the window.
pub proof fn lemma_pick_exact(
    order: Seq<Seq<char>>,
    index: Map<Seq<char>, Entry>,
    time_min: i64,
    time_max: i64,
)
    requires
        order.no_duplicates(),
    ensures
        pick(order, index, time_min, time_max).no_duplicates(),
        forall|key: Seq<char>|
            pick(order, index, time_min, time_max).contains(key) <==> (order.contains(key)
                && is_live(index, key) && index[key].meta.overlaps(time_min, time_max)),
    decreases order.len(),
{
    if order.len() > 0 {
        let rest = order.drop_last();
        let last = order.last();
        let picked = pick(rest, index, time_min, time_max);
        let all = pick(order, index, time_min, time_max);
        assert(rest.no_duplicates()) by {
            assert forall|a: int, b: int| 0 <= a < rest.len() && 0 <= b < rest.len() && a
                != b implies rest[a] != rest[b] by {
                assert(rest[a] == order[a] && rest[b] == order[b]);
            }
        }
        lemma_pick_exact(rest, index, time_min, time_max);
        assert(!rest.contains(last)) by {
            if rest.contains(last) {
                let a = choose|a: int| 0 <= a < rest.len() && rest[a] == last;
                assert(order[a] == last && order[order.len() - 1] == last);
            }
        }
        assert forall|key: Seq<char>| order.contains(key) <==> (rest.contains(key) || key
            == last) by {
            if order.contains(key) {
                let a = choose|a: int| 0 <= a < order.len() && order[a] == key;
                if a < rest.len() {
                    assert(rest[a] == key);
                }
            }
            if rest.contains(key) {
                let a = choose|a: int| 0 <= a < rest.len() && rest[a] == key;
                assert(order[a] == key);
            }
            if key == last {
                assert(order[order.len() - 1] == key);
            }
        }
        if is_live(index, last) && index[last].meta.overlaps(time_min, time_max) {
            assert(all == picked.push(last));
            assert(!picked.contains(last));
            assert forall|key: Seq<char>| all.contains(key) <==> (picked.contains(key) || key
                == last) by {
                if all.contains(key) {
                    let a = choose|a: int| 0 <= a < all.len() && all[a] == key;
                    if a < picked.len() {
                        assert(picked[a] == key);
                    }
                }
                if picked.contains(key) {
                    let a = choose|a: int| 0 <= a < picked.len() && picked[a] == key;
                    assert(all[a] == key);
                }
                if key == last {
                    assert(all[all.len() - 1] == key);
                }
            }
            assert forall|a: int, b: int| 0 <= a < all.len() && 0 <= b < all.len() && a
                != b implies all[a] != all[b] by {
                if a < picked.len() && b < picked.len() {
                    assert(all[a] == picked[a] && all[b] == picked[b]);
                } else if a < picked.len() {
                    assert(picked[a] == all[a]);
                    assert(picked.contains(all[a]));
                } else {
                    assert(picked[b] == all[b]);
                    assert(picked.contains(all[b]));
                }
            }
        }
    }
}

} // verus!
