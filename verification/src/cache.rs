//! The in-memory index of the catalog, partitioned by organisation, stream
//! kind and stream name.

use crate::index::{
    apply_batch, apply_record, arrival_after, arrival_step, entry_at, lemma_pick_agrees,
    lemma_pick_exact, merge, pick, selected, Entry,
};
use crate::key::{is_segment_key, scope_of, Scope, SegmentPath};
use crate::meta::{batch_view, FileKey, FileMeta, StreamType};
use crate::partition::{key_views, Partition};
use vstd::prelude::*;

verus! {

/// Whether some partition of `parts` knows `key`.
pub open spec fn located(parts: Seq<Partition>, key: Seq<char>) -> bool {
    exists|p: int| 0 <= p < parts.len() && (#[trigger] parts[p])@.dom().contains(key)
}

/// The place of the partition that knows `key`.
pub open spec fn home(parts: Seq<Partition>, key: Seq<char>) -> int {
    choose|p: int| 0 <= p < parts.len() && (#[trigger] parts[p])@.dom().contains(key)
}

/// All that the partitions know, as one map from key to entry.
pub open spec fn catalog(parts: Seq<Partition>) -> Map<Seq<char>, Entry> {
    Map::new(|key: Seq<char>| located(parts, key), |key: Seq<char>| parts[home(parts, key)]@[key])
}

/// Whether every partition is well formed and no two stand for one scope.
pub open spec fn well_partitioned(parts: Seq<Partition>) -> bool {
    &&& forall|p: int| 0 <= p < parts.len() ==> (#[trigger] parts[p]).wf()
    &&& forall|p: int, q: int|
        0 <= p < q < parts.len() ==> (#[trigger] parts[p]).scope() != (#[trigger] parts[q]).scope()
}

/// Whether `parts` has a partition for `scope`.
pub open spec fn has_scope(parts: Seq<Partition>, scope: Scope) -> bool {
    exists|p: int| 0 <= p < parts.len() && (#[trigger] parts[p]).scope() == scope
}

/// The place of the partition for `scope`.
pub open spec fn place_of(parts: Seq<Partition>, scope: Scope) -> int {
    choose|p: int| 0 <= p < parts.len() && (#[trigger] parts[p]).scope() == scope
}

/// The keys of the partition `scope`, in the order in which they became
/// known; none where there is no such partition.
pub open spec fn arrival_in(parts: Seq<Partition>, scope: Scope) -> Seq<Seq<char>> {
    if has_scope(parts, scope) {
        parts[place_of(parts, scope)].order()
    } else {
        Seq::empty()
    }
}

/// The keys of a partition's scope are those of the partition.
pub proof fn lemma_arrival_at(parts: Seq<Partition>, p: int)
    requires
        well_partitioned(parts),
        0 <= p < parts.len(),
    ensures
        arrival_in(parts, parts[p].scope()) == parts[p].order(),
{
    let h = place_of(parts, parts[p].scope());
    if h < p {
        assert(parts[h].scope() != parts[p].scope());
    } else if p < h {
        assert(parts[p].scope() != parts[h].scope());
    }
}

/// A key is known to the partition of its scope or to none.
pub proof fn lemma_entry_at(parts: Seq<Partition>, p: int, key: Seq<char>)
    requires
        well_partitioned(parts),
        0 <= p < parts.len(),
        scope_of(key) == parts[p].scope(),
    ensures
        entry_at(catalog(parts), key) == entry_at(parts[p]@, key),
{
    if located(parts, key) {
        let h = home(parts, key);
        parts[h].lemma_keys(key);
        if h < p {
            assert(parts[h].scope() != parts[p].scope());
        } else if p < h {
            assert(parts[p].scope() != parts[h].scope());
        }
    }
    if parts[p]@.dom().contains(key) {
        assert(located(parts, key));
    }
}

/// A key that the catalog knows is a segment key, and the partition of its
/// scope is among the partitions.
pub proof fn lemma_known_key(parts: Seq<Partition>, key: Seq<char>)
    requires
        well_partitioned(parts),
        catalog(parts).dom().contains(key),
    ensures
        is_segment_key(key),
        0 <= home(parts, key) < parts.len(),
        parts[home(parts, key)].scope() == scope_of(key),
        parts[home(parts, key)]@.dom().contains(key),
{
    let h = home(parts, key);
    parts[h].lemma_keys(key);
}

/// An empty partition adds nothing to the catalog.
pub proof fn lemma_catalog_grow(before: Seq<Partition>, after: Seq<Partition>)
    requires
        well_partitioned(before),
        after.len() == before.len() + 1,
        after == before.push(after[before.len() as int]),
        after[before.len() as int].wf(),
        after[before.len() as int]@ == Map::<Seq<char>, Entry>::empty(),
        after[before.len() as int].order() == Seq::<Seq<char>>::empty(),
        forall|p: int|
            0 <= p < before.len() ==> (#[trigger] before[p]).scope() != after[before.len() as int].scope(),
    ensures
        well_partitioned(after),
        catalog(after) == catalog(before),
        forall|scope: Scope| #[trigger] arrival_in(after, scope) == arrival_in(before, scope),
{
    let n = before.len() as int;
    assert forall|p: int, q: int| 0 <= p < q < after.len() implies (#[trigger] after[p]).scope() != (
    #[trigger] after[q]).scope() by {
        assert(after[p] == before[p]);
        if q < n {
            assert(after[q] == before[q]);
        }
    }
    assert forall|p: int| 0 <= p < after.len() implies (#[trigger] after[p]).wf() by {
        if p < n {
            assert(after[p] == before[p]);
        }
    }
    assert forall|key: Seq<char>| located(after, key) <==> located(before, key) by {
        if located(after, key) {
            let h = home(after, key);
            assert(h < n);
            assert(before[h] == after[h]);
        }
        if located(before, key) {
            let h = home(before, key);
            assert(after[h] == before[h]);
        }
    }
    assert forall|key: Seq<char>| located(after, key) implies catalog(after)[key] == catalog(
        before,
    )[key] by {
        let h = home(after, key);
        assert(h < n);
        assert(before[h] == after[h]);
        after[h].lemma_keys(key);
        lemma_entry_at(before, h, key);
    }
    assert(catalog(after) =~= catalog(before));
    assert forall|scope: Scope| #[trigger] arrival_in(after, scope) == arrival_in(before, scope) by {
        if has_scope(before, scope) {
            let h = place_of(before, scope);
            assert(after[h] == before[h]);
            lemma_arrival_at(after, h);
        } else if has_scope(after, scope) {
            let h = place_of(after, scope);
            if h < n {
                assert(before[h] == after[h]);
            }
        }
    }
}

/// A change to one key in the partition of its scope is that change to the
/// catalog.
pub proof fn lemma_catalog_step(
    before: Seq<Partition>,
    after: Seq<Partition>,
    p: int,
    key: Seq<char>,
    entry: Entry,
)
    requires
        well_partitioned(before),
        0 <= p < before.len(),
        after.len() == before.len(),
        forall|q: int| 0 <= q < before.len() && q != p ==> (#[trigger] after[q]) == before[q],
        after[p].wf(),
        after[p].scope() == before[p].scope(),
        after[p]@ == before[p]@.insert(key, entry),
        scope_of(key) == before[p].scope(),
    ensures
        well_partitioned(after),
        catalog(after) == catalog(before).insert(key, entry),
        forall|scope: Scope|
            #[trigger] arrival_in(after, scope) == (if scope == before[p].scope() {
                after[p].order()
            } else {
                arrival_in(before, scope)
            }),
{
    assert forall|a: int, b: int| 0 <= a < b < after.len() implies (#[trigger] after[a]).scope() != (
    #[trigger] after[b]).scope() by {
        assert(before[a].scope() != before[b].scope());
        assert(after[a].scope() == before[a].scope());
        assert(after[b].scope() == before[b].scope());
    }
    assert forall|a: int| 0 <= a < after.len() implies (#[trigger] after[a]).wf() by {
        if a != p {
            assert(after[a] == before[a]);
            assert(before[a].wf());
        }
    }
    let goal = catalog(before).insert(key, entry);
    assert forall|k: Seq<char>| catalog(after).dom().contains(k) <==> goal.dom().contains(k) by {
        if located(after, k) {
            let h = home(after, k);
            if h != p {
                assert(before[h] == after[h]);
            } else if k != key {
                assert(before[p]@.dom().contains(k));
            }
        }
        if located(before, k) {
            let h = home(before, k);
            if h != p {
                assert(after[h] == before[h]);
            } else {
                assert(after[p]@.dom().contains(k));
            }
        }
        if k == key {
            assert(after[p]@.dom().contains(k));
        }
    }
    assert forall|k: Seq<char>| catalog(after).dom().contains(k) implies catalog(after)[k]
        == goal[k] by {
        lemma_known_key(after, k);
        let h = home(after, k);
        lemma_entry_at(after, h, k);
        if h != p {
            assert(before[h] == after[h]);
            assert(before[h].scope() != before[p].scope());
            lemma_entry_at(before, h, k);
        } else if k != key {
            assert(before[p]@.dom().contains(k));
            lemma_entry_at(before, p, k);
        }
    }
    assert(catalog(after) =~= goal);
    assert forall|scope: Scope|
        #[trigger] arrival_in(after, scope) == (if scope == before[p].scope() {
            after[p].order()
        } else {
            arrival_in(before, scope)
        }) by {
        if scope == before[p].scope() {
            lemma_arrival_at(after, p);
        } else if has_scope(before, scope) {
            let h = place_of(before, scope);
            assert(after[h] == before[h]);
            lemma_arrival_at(after, h);
        } else if has_scope(after, scope) {
            let h = place_of(after, scope);
            if h != p {
                assert(before[h] == after[h]);
            }
        }
    }
}

/// What a point lookup finds.
#[derive(Clone, Copy, Debug, PartialEq, Eq, Structural)]
pub enum Lookup {
    /// The segment is live; its metadata.
    Found(FileMeta),
    /// The segment has been retired.
    Retired,
    /// The key is not known.
    Missing,
}

/// What a lookup of `key` finds in `index`.
pub open spec fn lookup_of(index: Map<Seq<char>, Entry>, key: Seq<char>) -> Lookup {
    match entry_at(index, key) {
        Some(entry) => if entry.deleted {
            Lookup::Retired
        } else {
            Lookup::Found(entry.meta)
        },
        None => Lookup::Missing,
    }
}

impl Lookup {
    /// The metadata that was found, or the zero value where none was.
    pub fn meta_or_default(self) -> (meta: FileMeta)
        ensures
            meta == (match self {
                Lookup::Found(found) => found,
                _ => FileMeta::zero(),
            }),
    {
        match self {
            Lookup::Found(found) => found,
            _ => FileMeta::default(),
        }
    }
}

/// The in-memory index of the catalog. Its view is the map from segment key
/// to what is known of that key.
pub struct FileListCache {
    partitions: Vec<Partition>,
}

impl View for FileListCache {
    type V = Map<Seq<char>, Entry>;

    closed spec fn view(&self) -> Map<Seq<char>, Entry> {
        catalog(self.partitions@)
    }
}

impl FileListCache {
    /// The invariant of the type.
    pub closed spec fn wf(&self) -> bool {
        well_partitioned(self.partitions@)
    }

    /// The keys of the partition `scope`, in the order in which the index
    /// came to know them.
    pub closed spec fn arrival(&self, scope: Scope) -> Seq<Seq<char>> {
        arrival_in(self.partitions@, scope)
    }

    /// An index that knows no segment.
    pub fn new() -> (cache: FileListCache)
        ensures
            cache.wf(),
            cache@ == Map::<Seq<char>, Entry>::empty(),
            forall|scope: Scope| #[trigger] cache.arrival(scope) == Seq::<Seq<char>>::empty(),
    {
        let cache = FileListCache { partitions: Vec::new() };
        assert(cache@ =~= Map::<Seq<char>, Entry>::empty());
        cache
    }

    /// The order of a partition holds each key of the partition that the
    /// index knows once, and no other key.
    pub proof fn lemma_arrival(&self, scope: Scope)
        requires
            self.wf(),
        ensures
            self.arrival(scope).no_duplicates(),
            forall|key: Seq<char>|
                self.arrival(scope).contains(key) <==> (self@.dom().contains(key) && scope_of(key)
                    == scope),
    {
        let parts = self.partitions@;
        if has_scope(parts, scope) {
            let p = place_of(parts, scope);
            parts[p].lemma_order();
            assert forall|key: Seq<char>|
                self.arrival(scope).contains(key) <==> (self@.dom().contains(key) && scope_of(key)
                    == scope) by {
                if parts[p]@.dom().contains(key) {
                    parts[p].lemma_keys(key);
                }
                if scope_of(key) == scope {
                    lemma_entry_at(parts, p, key);
                }
            }
        } else {
            assert forall|key: Seq<char>|
                !(self@.dom().contains(key) && scope_of(key) == scope) by {
                if self@.dom().contains(key) {
                    lemma_known_key(parts, key);
                }
            }
        }
    }

    /// Every key that the index knows is a segment key.
    pub proof fn lemma_keys_valid(&self, key: Seq<char>)
        requires
            self.wf(),
            self@.dom().contains(key),
        ensures
            is_segment_key(key),
    {
        lemma_known_key(self.partitions@, key);
    }

    /// The place of the partition for a scope, if the index has one.
    fn find_partition(&self, org: &String, stream_type: &String, stream_name: &String) -> (place:
        Option<usize>)
        ensures
            match place {
                Some(p) => p < self.partitions@.len() && self.partitions@[p as int].scope() == (
                Scope { org: org@, stream_type: stream_type@, stream_name: stream_name@ }),
                None => forall|p: int|
                    0 <= p < self.partitions@.len() ==> (#[trigger] self.partitions@[p]).scope()
                        != (Scope {
                        org: org@,
                        stream_type: stream_type@,
                        stream_name: stream_name@,
                    }),
            },
    {
        let count: usize = self.partitions.len();
        let mut p: usize = 0;
        while p < count
            invariant
                p <= count,
                count == self.partitions@.len(),
                forall|q: int|
                    0 <= q < p ==> (#[trigger] self.partitions@[q]).scope() != (Scope {
                        org: org@,
                        stream_type: stream_type@,
                        stream_name: stream_name@,
                    }),
            decreases count - p,
        {
            if self.partitions[p].is_scope(org, stream_type, stream_name) {
                return Some(p);
            }
            p = p + 1;
        }
        None
    }

    /// Applies one record. A record whose key is not a segment key changes
    /// nothing.
    pub fn apply_record(&mut self, record: &FileKey)
        requires
            old(self).wf(),
        ensures
            final(self).wf(),
            final(self)@ == apply_record(old(self)@, record@),
            forall|scope: Scope|
                #[trigger] final(self).arrival(scope) == arrival_step(
                    old(self).arrival(scope),
                    old(self)@,
                    record@,
                    scope,
                ),
    {
        match SegmentPath::parse(record.key.as_str()) {
            None => {},
            Some(path) => {
                let ghost start = self.partitions@;
                let place: usize = match self.find_partition(
                    &path.org,
                    &path.stream_type,
                    &path.stream_name,
                ) {
                    Some(p) => p,
                    None => {
                        let fresh = Partition::new(path.org, path.stream_type, path.stream_name);
                        self.partitions.push(fresh);
                        proof {
                            lemma_catalog_grow(start, self.partitions@);
                        }
                        self.partitions.len() - 1
                    },
                };
                let ghost before = self.partitions@;
                assert(catalog(before) == catalog(start));
                assert(before[place as int].scope() == scope_of(record.key@));
                self.partitions[place].apply(record);
                proof {
                    let after = self.partitions@;
                    lemma_entry_at(before, place as int, record.key@);
                    lemma_arrival_at(before, place as int);
                    lemma_catalog_step(
                        before,
                        after,
                        place as int,
                        record.key@,
                        merge(entry_at(before[place as int]@, record.key@), record@),
                    );
                }
            },
        }
    }

    /// Applies the records of `batch` in order.
    pub fn apply(&mut self, batch: &[FileKey])
        requires
            old(self).wf(),
        ensures
            final(self).wf(),
            final(self)@ == apply_batch(old(self)@, batch_view(batch@)),
            forall|scope: Scope|
                #[trigger] final(self).arrival(scope) == arrival_after(
                    old(self).arrival(scope),
                    old(self)@,
                    batch_view(batch@),
                    scope,
                ),
    {
        let count: usize = batch.len();
        let mut i: usize = 0;
        while i < count
            invariant
                i <= count,
                count == batch@.len(),
                self.wf(),
                self@ == apply_batch(old(self)@, batch_view(batch@.take(i as int))),
                forall|scope: Scope|
                    #[trigger] self.arrival(scope) == arrival_after(
                        old(self).arrival(scope),
                        old(self)@,
                        batch_view(batch@.take(i as int)),
                        scope,
                    ),
            decreases count - i,
        {
            self.apply_record(&batch[i]);
            proof {
                let next = batch_view(batch@.take(i + 1));
                assert(next.drop_last() == batch_view(batch@.take(i as int)));
                assert(next.last() == batch@[i as int]@);
            }
            i = i + 1;
        }
        assert(batch@.take(count as int) == batch@);
    }

    /// What the index knows of `key`.
    pub fn lookup(&self, key: &str) -> (found: Lookup)
        requires
            self.wf(),
        ensures
            found == lookup_of(self@, key@),
    {
        match SegmentPath::parse(key) {
            None => {
                proof {
                    if self@.dom().contains(key@) {
                        self.lemma_keys_valid(key@);
                    }
                }
                Lookup::Missing
            },
            Some(path) => {
                match self.find_partition(&path.org, &path.stream_type, &path.stream_name) {
                    None => {
                        proof {
                            if self@.dom().contains(key@) {
                                lemma_known_key(self.partitions@, key@);
                            }
                        }
                        Lookup::Missing
                    },
                    Some(p) => {
                        proof {
                            lemma_entry_at(self.partitions@, p as int, key@);
                        }
                        let owned = key.to_owned();
                        match self.partitions[p].find(&owned) {
                            Some((meta, deleted)) => if deleted {
                                Lookup::Retired
                            } else {
                                Lookup::Found(meta)
                            },
                            None => Lookup::Missing,
                        }
                    },
                }
            },
        }
    }

    /// The keys of the live segments of one partition whose time span meets
    /// the window `[time_min, time_max]`, in the order in which the index
    /// came to know them. No key comes twice.
    pub fn query(
        &self,
        org: &str,
        stream_name: &str,
        stream_type: StreamType,
        time_min: i64,
        time_max: i64,
    ) -> (keys: Vec<String>)
        requires
            self.wf(),
        ensures
            key_views(keys@) == pick(
                self.arrival(
                    Scope { org: org@, stream_type: stream_type.name(), stream_name: stream_name@ },
                ),
                self@,
                time_min,
                time_max,
            ),
            key_views(keys@).no_duplicates(),
            forall|key: Seq<char>|
                key_views(keys@).contains(key) <==> selected(
                    self@,
                    key,
                    org@,
                    stream_name@,
                    stream_type.name(),
                    time_min,
                    time_max,
                ),
    {
        let org_owned = org.to_owned();
        let name_owned = stream_name.to_owned();
        let type_owned = stream_type.as_str().to_owned();
        let ghost scope = Scope {
            org: org@,
            stream_type: stream_type.name(),
            stream_name: stream_name@,
        };
        proof {
            self.lemma_arrival(scope);
            lemma_pick_exact(self.arrival(scope), self@, time_min, time_max);
            assert forall|key: Seq<char>| self@.dom().contains(key) implies is_segment_key(key) by {
                self.lemma_keys_valid(key);
            }
        }
        match self.find_partition(&org_owned, &type_owned, &name_owned) {
            None => {
                let keys: Vec<String> = Vec::new();
                assert(key_views(keys@) =~= Seq::<Seq<char>>::empty());
                keys
            },
            Some(p) => {
                let keys = self.partitions[p].scan(time_min, time_max);
                proof {
                    let parts = self.partitions@;
                    let part = parts[p as int];
                    lemma_arrival_at(parts, p as int);
                    part.lemma_order();
                    assert forall|i: int| 0 <= i < part.order().len() implies entry_at(
                        part@,
                        #[trigger] part.order()[i],
                    ) == entry_at(self@, part.order()[i]) by {
                        let key = part.order()[i];
                        assert(part.order().contains(key));
                        part.lemma_keys(key);
                        lemma_entry_at(parts, p as int, key);
                    }
                    lemma_pick_agrees(part.order(), part@, self@, time_min, time_max);
                }
                keys
            },
        }
    }
}

} // verus!
