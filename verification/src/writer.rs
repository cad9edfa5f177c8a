//! The delta log: one compressed object for each batch of catalog changes.

use crate::codec::{batch_text, encode_batch};
use crate::compress::{compress, zstd_plain};
use crate::error::FileListError;
use crate::key::{delta_log_name, is_segment_key, SegmentPath};
use crate::meta::{batch_view, FileKey, Record};
use vstd::prelude::*;
use vstd::utf8::encode_utf8;

verus! {

/// A delta-log object that is ready to be stored.
#[derive(Debug, PartialEq, Eq)]
pub struct LogObject {
    pub name: String,
    pub bytes: Vec<u8>,
}

/// Whether `plain` is the text of `batch` in UTF-8.
pub open spec fn is_text_of(plain: Seq<u8>, batch: Seq<Record>) -> bool {
    plain == encode_utf8(batch_text(batch))
}

/// Whether the delta-log object `bytes` holds `batch`: decompressed, it is
/// the text of `batch` in UTF-8.
pub open spec fn holds_batch(bytes: Seq<u8>, batch: Seq<Record>) -> bool {
    match zstd_plain(bytes) {
        Some(plain) => is_text_of(plain, batch),
        None => false,
    }
}

/// Whether a batch names a place in the delta log: it has a first record,
/// and the key of that record is a segment key.
pub open spec fn has_log_name(batch: Seq<Record>) -> bool {
    batch.len() > 0 && is_segment_key(batch[0].key)
}

/// Prepares the delta-log object for `batch`. Its name comes from the
/// partition of the first record's key and from `unique_id`; its bytes hold
/// the batch: every record, in order. A batch that names no place in the
/// delta log gives `None`. Fails with `Compression` where the compressor
/// reports an error.
pub fn prepare_log(batch: &[FileKey], unique_id: &str) -> (prepared: Result<
    Option<LogObject>,
    FileListError,
>)
    ensures
        match prepared {
            Ok(Some(object)) => has_log_name(batch_view(batch@)) && object.name@ == delta_log_name(
                batch@[0].key@,
                unique_id@,
            ) && holds_batch(object.bytes@, batch_view(batch@)),
            Ok(None) => !has_log_name(batch_view(batch@)),
            Err(error) => has_log_name(batch_view(batch@)) && error == FileListError::Compression,
        },
{
    if batch.len() == 0 {
        return Ok(None);
    }
    assert(batch_view(batch@)[0] == batch@[0]@);
    match SegmentPath::parse(batch[0].key.as_str()) {
        None => Ok(None),
        Some(path) => {
            let name = path.delta_log_name(unique_id);
            let text = encode_batch(batch);
            match compress(text.as_str().as_bytes()) {
                Ok(bytes) => Ok(Some(LogObject { name, bytes })),
                Err(error) => Err(error),
            }
        },
    }
}

} // verus!
