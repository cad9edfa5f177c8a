//! The segments of one partition of the catalog.

use crate::index::{entry_at, merge, pick, Entry};
use crate::key::{is_segment_key, scope_of, Scope};
use crate::meta::{FileKey, FileMeta};
use vstd::prelude::*;

verus! {

/// Whether some record of `files` has the key `key`.
pub open spec fn holds(files: Seq<FileKey>, key: Seq<char>) -> bool {
    exists|i: int| 0 <= i < files.len() && (#[trigger] files[i]).key@ == key
}

/// The place of the record with key `key` in `files`.
pub open spec fn slot(files: Seq<FileKey>, key: Seq<char>) -> int {
    choose|i: int| 0 <= i < files.len() && (#[trigger] files[i]).key@ == key
}

/// What a record says of its key.
pub open spec fn entry_of(record: FileKey) -> Entry {
    Entry { meta: record.meta, deleted: record.deleted }
}

/// The keys of `files`, in order.
pub open spec fn key_list(files: Seq<FileKey>) -> Seq<Seq<char>> {
    files.map_values(|record: FileKey| record.key@)
}

/// The records of `files` as a map from key to entry.
pub open spec fn table(files: Seq<FileKey>) -> Map<Seq<char>, Entry> {
    Map::new(|key: Seq<char>| holds(files, key), |key: Seq<char>| entry_of(files[slot(files, key)]))
}

/// Whether no two records of `files` share a key.
pub open spec fn distinct_keys(files: Seq<FileKey>) -> bool {
    forall|i: int, j: int|
        0 <= i < j < files.len() ==> (#[trigger] files[i]).key@ != (#[trigger] files[j]).key@
}

/// Whether every record of `files` has a segment key of the partition `scope`.
pub open spec fn keys_in_scope(files: Seq<FileKey>, scope: Scope) -> bool {
    forall|i: int|
        0 <= i < files.len() ==> is_segment_key((#[trigger] files[i]).key@) && scope_of(
            files[i].key@,
        ) == scope
}

/// Where keys are distinct, the table gives for each record's key that
/// record's entry.
pub proof fn lemma_table_at(files: Seq<FileKey>, i: int)
    requires
        distinct_keys(files),
        0 <= i < files.len(),
    ensures
        table(files).dom().contains(files[i].key@),
        table(files)[files[i].key@] == entry_of(files[i]),
{
    let key = files[i].key@;
    assert(holds(files, key));
    let j = slot(files, key);
    assert(0 <= j < files.len() && files[j].key@ == key);
    if j < i {
        assert(files[j].key@ != files[i].key@);
    } else if i < j {
        assert(files[i].key@ != files[j].key@);
    }
}

/// The segments of one partition: records with distinct keys, all of them
/// segment keys of this partition.
pub struct Partition {
    org: String,
    stream_type: String,
    stream_name: String,
    files: Vec<FileKey>,
}

impl Partition {
    /// The partition that these segments belong to.
    pub closed spec fn scope(&self) -> Scope {
        Scope { org: self.org@, stream_type: self.stream_type@, stream_name: self.stream_name@ }
    }

    /// The keys that the partition knows, in the order in which it came to
    /// know them.
    pub closed spec fn order(&self) -> Seq<Seq<char>> {
        key_list(self.files@)
    }

    /// The invariant of the type.
    pub closed spec fn wf(&self) -> bool {
        &&& distinct_keys(self.files@)
        &&& keys_in_scope(self.files@, self.scope())
    }

    /// The order holds each key that the partition knows once, and no other.
    pub proof fn lemma_order(&self)
        requires
            self.wf(),
        ensures
            self.order().no_duplicates(),
            forall|key: Seq<char>| self.order().contains(key) <==> self@.dom().contains(key),
    {
        let order = self.order();
        assert forall|a: int, b: int| 0 <= a < order.len() && 0 <= b < order.len() && a
            != b implies order[a] != order[b] by {
            if a < b {
                assert(self.files@[a].key@ != self.files@[b].key@);
            } else {
                assert(self.files@[b].key@ != self.files@[a].key@);
            }
        }
        assert forall|key: Seq<char>| order.contains(key) <==> self@.dom().contains(key) by {
            if order.contains(key) {
                let a = choose|a: int| 0 <= a < order.len() && order[a] == key;
                assert(self.files@[a].key@ == key);
            }
            if holds(self.files@, key) {
                let a = slot(self.files@, key);
                assert(order[a] == key);
            }
        }
    }

    /// An empty partition.
    pub fn new(org: String, stream_type: String, stream_name: String) -> (part: Partition)
        ensures
            part.wf(),
            part@ == Map::<Seq<char>, Entry>::empty(),
            part.order() == Seq::<Seq<char>>::empty(),
            part.scope() == (Scope {
                org: org@,
                stream_type: stream_type@,
                stream_name: stream_name@,
            }),
    {
        let part = Partition { org, stream_type, stream_name, files: Vec::new() };
        assert(part@ =~= Map::<Seq<char>, Entry>::empty());
        assert(part.order() =~= Seq::<Seq<char>>::empty());
        part
    }

    /// Every key of the partition is a segment key in its scope.
    pub proof fn lemma_keys(&self, key: Seq<char>)
        requires
            self.wf(),
            self@.dom().contains(key),
        ensures
            is_segment_key(key),
            scope_of(key) == self.scope(),
    {
        let i = slot(self.files@, key);
        assert(self.files@[i].key@ == key);
    }

    /// Whether this is the partition `(org, stream_type, stream_name)`.
    pub fn is_scope(&self, org: &String, stream_type: &String, stream_name: &String) -> (same:
        bool)
        ensures
            same == (self.scope() == (Scope {
                org: org@,
                stream_type: stream_type@,
                stream_name: stream_name@,
            })),
    {
        self.org == *org && self.stream_type == *stream_type && self.stream_name == *stream_name
    }

    /// The place of `key` among the records, if it is there.
    fn position(&self, key: &String) -> (place: Option<usize>)
        requires
            self.wf(),
        ensures
            match place {
                Some(i) => i < self.files@.len() && self.files@[i as int].key@ == key@,
                None => !holds(self.files@, key@),
            },
    {
        let count: usize = self.files.len();
        let mut i: usize = 0;
        while i < count
            invariant
                i <= count,
                count == self.files@.len(),
                forall|j: int| 0 <= j < i ==> (#[trigger] self.files@[j]).key@ != key@,
            decreases count - i,
        {
            if self.files[i].key == *key {
                return Some(i);
            }
            i = i + 1;
        }
        None
    }

    /// Applies `record` to the partition: the record takes the place of what
    /// was known of its key, unless that is a tombstone and the record is none.
    pub fn apply(&mut self, record: &FileKey)
        requires
            old(self).wf(),
            is_segment_key(record.key@),
            scope_of(record.key@) == old(self).scope(),
        ensures
            final(self).wf(),
            final(self).scope() == old(self).scope(),
            final(self)@ == old(self)@.insert(
                record.key@,
                merge(entry_at(old(self)@, record.key@), record@),
            ),
            final(self).order() == (if old(self)@.dom().contains(record.key@) {
                old(self).order()
            } else {
                old(self).order().push(record.key@)
            }),
    {
        let ghost before = self.files@;
        match self.position(&record.key) {
            Some(i) => {
                proof {
                    lemma_table_at(before, i as int);
                }
                if !(self.files[i].deleted && !record.deleted) {
                    self.files[i] = record.duplicate();
                    proof {
                        let after = self.files@;
                        assert(after == before.update(i as int, after[i as int]));
                        assert(distinct_keys(after)) by {
                            assert forall|a: int, b: int| 0 <= a < b < after.len() implies (
                            #[trigger] after[a]).key@ != (#[trigger] after[b]).key@ by {
                                assert(after[a].key@ == before[a].key@);
                                assert(after[b].key@ == before[b].key@);
                            }
                        }
                        assert(keys_in_scope(after, self.scope())) by {
                            assert forall|a: int| 0 <= a < after.len() implies is_segment_key(
                                (#[trigger] after[a]).key@,
                            ) && scope_of(after[a].key@) == self.scope() by {
                                assert(after[a].key@ == before[a].key@);
                            }
                        }
                        lemma_table_update(before, after, i as int);
                        assert(key_list(after) =~= key_list(before));
                    }
                } else {
                    assert(self@ =~= old(self)@.insert(
                        record.key@,
                        merge(entry_at(old(self)@, record.key@), record@),
                    ));
                }
            },
            None => {
                self.files.push(record.duplicate());
                proof {
                    let after = self.files@;
                    assert(after == before.push(after[before.len() as int]));
                    assert(distinct_keys(after)) by {
                        assert forall|a: int, b: int| 0 <= a < b < after.len() implies (
                        #[trigger] after[a]).key@ != (#[trigger] after[b]).key@ by {
                            assert(after[a] == before[a]);
                            if b < before.len() {
                                assert(after[b] == before[b]);
                            }
                        }
                    }
                    assert(keys_in_scope(after, self.scope())) by {
                        assert forall|a: int| 0 <= a < after.len() implies is_segment_key(
                            (#[trigger] after[a]).key@,
                        ) && scope_of(after[a].key@) == self.scope() by {
                            if a < before.len() {
                                assert(after[a] == before[a]);
                            }
                        }
                    }
                    lemma_table_push(before, after);
                    assert(key_list(after) =~= key_list(before).push(record.key@));
                }
            },
        }
    }
}

impl Partition {
    /// What the partition knows of `key`.
    pub fn find(&self, key: &String) -> (found: Option<(FileMeta, bool)>)
        requires
            self.wf(),
        ensures
            match found {
                Some((meta, deleted)) => entry_at(self@, key@) == Some(Entry { meta, deleted }),
                None => entry_at(self@, key@) is None,
            },
    {
        match self.position(key) {
            Some(i) => {
                proof {
                    lemma_table_at(self.files@, i as int);
                }
                Some((self.files[i].meta, self.files[i].deleted))
            },
            None => None,
        }
    }

    /// The keys of the live segments whose time span meets the window
    /// `[time_min, time_max]`, in the order in which the partition came to
    /// know them.
    pub fn scan(&self, time_min: i64, time_max: i64) -> (keys: Vec<String>)
        requires
            self.wf(),
        ensures
            key_views(keys@) == pick(self.order(), self@, time_min, time_max),
    {
        let mut keys: Vec<String> = Vec::new();
        let count: usize = self.files.len();
        let mut i: usize = 0;
        assert(key_views(keys@) =~= Seq::<Seq<char>>::empty());
        while i < count
            invariant
                i <= count,
                count == self.files@.len(),
                self.wf(),
                key_views(keys@) == pick(self.order().take(i as int), self@, time_min, time_max),
            decreases count - i,
        {
            let file = &self.files[i];
            let ghost seen = key_views(keys@);
            proof {
                lemma_table_at(self.files@, i as int);
                let next = self.order().take(i + 1);
                assert(next.drop_last() == self.order().take(i as int));
                assert(next.last() == file.key@);
            }
            if !file.deleted && file.meta.overlaps_window(time_min, time_max) {
                keys.push(file.key.clone());
                assert(key_views(keys@) =~= seen.push(file.key@));
            }
            i = i + 1;
        }
        assert(self.order().take(count as int) == self.order());
        keys
    }
}

/// The keys of `keys` as sequences of characters.
pub open spec fn key_views(keys: Seq<String>) -> Seq<Seq<char>> {
    keys.map_values(|key: String| key@)
}

impl View for Partition {
    type V = Map<Seq<char>, Entry>;

    closed spec fn view(&self) -> Map<Seq<char>, Entry> {
        table(self.files@)
    }
}

/// Replacing one record by another with the same key replaces its entry.
pub proof fn lemma_table_update(before: Seq<FileKey>, after: Seq<FileKey>, i: int)
    requires
        distinct_keys(before),
        distinct_keys(after),
        0 <= i < before.len(),
        after == before.update(i, after[i]),
        after[i].key@ == before[i].key@,
    ensures
        table(after) == table(before).insert(before[i].key@, entry_of(after[i])),
{
    let key = before[i].key@;
    let goal = table(before).insert(key, entry_of(after[i]));
    assert forall|k: Seq<char>| table(after).dom().contains(k) <==> goal.dom().contains(k) by {
        if holds(after, k) {
            let j = slot(after, k);
            assert(before[j].key@ == k);
        }
        if holds(before, k) {
            let j = slot(before, k);
            assert(after[j].key@ == k);
        }
        if k == key {
            assert(after[i].key@ == k);
        }
    }
    assert forall|k: Seq<char>| table(after).dom().contains(k) implies table(after)[k] == goal[k] by {
        let j = slot(after, k);
        assert(after[j].key@ == k);
        lemma_table_at(after, j);
        if j != i {
            assert(before[j] == after[j]);
            lemma_table_at(before, j);
            if j < i {
                assert(before[j].key@ != before[i].key@);
            } else {
                assert(before[i].key@ != before[j].key@);
            }
        }
    }
    assert(table(after) =~= goal);
}

/// Adding a record with a new key adds its entry.
pub proof fn lemma_table_push(before: Seq<FileKey>, after: Seq<FileKey>)
    requires
        distinct_keys(before),
        distinct_keys(after),
        after.len() == before.len() + 1,
        after == before.push(after[before.len() as int]),
    ensures
        table(after) == table(before).insert(
            after[before.len() as int].key@,
            entry_of(after[before.len() as int]),
        ),
{
    let n = before.len() as int;
    let key = after[n].key@;
    let goal = table(before).insert(key, entry_of(after[n]));
    assert forall|k: Seq<char>| table(after).dom().contains(k) <==> goal.dom().contains(k) by {
        if holds(after, k) {
            let j = slot(after, k);
            if j < n {
                assert(before[j].key@ == k);
            }
        }
        if holds(before, k) {
            let j = slot(before, k);
            assert(after[j].key@ == k);
        }
        if k == key {
            assert(after[n].key@ == k);
        }
    }
    assert forall|k: Seq<char>| table(after).dom().contains(k) implies table(after)[k] == goal[k] by {
        let j = slot(after, k);
        assert(after[j].key@ == k);
        lemma_table_at(after, j);
        if j < n {
            assert(before[j] == after[j]);
            lemma_table_at(before, j);
            assert(after[j].key@ != after[n].key@);
        }
    }
    assert(table(after) =~= goal);
}

} // verus!
