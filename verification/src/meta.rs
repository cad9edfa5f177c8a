//! The catalog's data model: segment metadata, catalog records and stream kinds.

use vstd::prelude::*;

verus! {

/// Attributes of one segment. The zero value stands for unknown metadata.
#[derive(Clone, Copy, Debug, PartialEq, Eq, Structural)]
pub struct FileMeta {
    pub min_ts: i64,
    pub max_ts: i64,
    pub records: u64,
    pub original_size: u64,
    pub compressed_size: u64,
}

impl FileMeta {
    /// The zero value: every size, count and timestamp is zero.
    pub open spec fn zero() -> FileMeta {
        FileMeta { min_ts: 0, max_ts: 0, records: 0, original_size: 0, compressed_size: 0 }
    }

    /// Whether the time span of this segment meets the window `[time_min, time_max]`.
    pub open spec fn overlaps(self, time_min: i64, time_max: i64) -> bool {
        self.min_ts <= time_max && self.max_ts >= time_min
    }

    /// Executable form of [`FileMeta::overlaps`].
    pub fn overlaps_window(&self, time_min: i64, time_max: i64) -> (hit: bool)
        ensures
            hit == self.overlaps(time_min, time_max),
    {
        self.min_ts <= time_max && self.max_ts >= time_min
    }
}

impl Default for FileMeta {
    fn default() -> (meta: FileMeta)
        ensures
            meta == FileMeta::zero(),
    {
        FileMeta { min_ts: 0, max_ts: 0, records: 0, original_size: 0, compressed_size: 0 }
    }
}

/// What a catalog record says, with the key as a sequence of characters.
pub struct Record {
    pub key: Seq<char>,
    pub meta: FileMeta,
    pub deleted: bool,
}

/// One catalog record: a segment key, its metadata, and whether the record
/// is a tombstone.
#[derive(Clone, Debug, PartialEq, Eq)]
pub struct FileKey {
    pub key: String,
    pub meta: FileMeta,
    pub deleted: bool,
}

impl View for FileKey {
    type V = Record;

    open spec fn view(&self) -> Record {
        Record { key: self.key@, meta: self.meta, deleted: self.deleted }
    }
}

impl FileKey {
    /// A record for `key` with the given metadata and tombstone flag.
    pub fn new(key: &str, meta: FileMeta, deleted: bool) -> (record: FileKey)
        ensures
            record@ == (Record { key: key@, meta, deleted }),
    {
        FileKey { key: key.to_owned(), meta, deleted }
    }

    /// The tombstone for `key`: zero metadata, `deleted` set.
    pub fn tombstone(key: &str) -> (record: FileKey)
        ensures
            record@ == (Record { key: key@, meta: FileMeta::zero(), deleted: true }),
    {
        FileKey { key: key.to_owned(), meta: FileMeta::default(), deleted: true }
    }

    /// A copy of this record.
    pub fn duplicate(&self) -> (record: FileKey)
        ensures
            record@ == self@,
    {
        FileKey { key: self.key.clone(), meta: self.meta, deleted: self.deleted }
    }
}

/// The views of a sequence of records, in order.
pub open spec fn batch_view(batch: Seq<FileKey>) -> Seq<Record> {
    batch.map_values(|record: FileKey| record@)
}

/// The kind of stream a segment belongs to.
#[derive(Clone, Copy, Debug, PartialEq, Eq, Structural)]
pub enum StreamType {
    Logs,
    Metrics,
    Traces,
    Metadata,
    Filelist,
}

impl StreamType {
    /// The path segment that stands for this kind in a segment key.
    pub open spec fn name(self) -> Seq<char> {
        match self {
            StreamType::Logs => "logs"@,
            StreamType::Metrics => "metrics"@,
            StreamType::Traces => "traces"@,
            StreamType::Metadata => "metadata"@,
            StreamType::Filelist => "file_list"@,
        }
    }

    /// Executable form of [`StreamType::name`].
    pub fn as_str(&self) -> (text: &'static str)
        ensures
            text@ == self.name(),
    {
        match self {
            StreamType::Logs => "logs",
            StreamType::Metrics => "metrics",
            StreamType::Traces => "traces",
            StreamType::Metadata => "metadata",
            StreamType::Filelist => "file_list",
        }
    }
}

impl Default for StreamType {
    fn default() -> (kind: StreamType)
        ensures
            kind == StreamType::Logs,
    {
        StreamType::Logs
    }
}

} // verus!
