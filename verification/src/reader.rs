//! Reading delta-log objects back, to bring an index up to date from the
//! delta log.

use crate::cache::FileListCache;
use crate::codec::batch_text;
use crate::compress::{decompress, zstd_plain};
use crate::decode::{decode_batch, lemma_batch_text_injective};
use crate::error::FileListError;
use crate::index::{apply_batch, arrival_after};
use crate::key::Scope;
use crate::meta::{batch_view, FileKey, Record};
use crate::writer::{holds_batch, is_text_of};
use vstd::prelude::*;
use vstd::utf8::{
    decode_utf8, decode_utf8_encode_utf8, encode_utf8_decode_utf8, encode_utf8_valid_utf8,
    valid_utf8,
};

verus! {

/// Calls `String::from_utf8` on `bytes`: the text that the bytes encode, or
/// `None` where the bytes are not valid UTF-8.
#[verifier::external_body]
fn utf8_text(bytes: Vec<u8>) -> (text: Option<String>)
    ensures
        text is Some <==> valid_utf8(bytes@),
        text is Some ==> text->Some_0@ == decode_utf8(bytes@),
{
    String::from_utf8(bytes).ok()
}

/// The batch that the delta-log object `bytes` holds, where it holds one.
pub open spec fn batch_in(bytes: Seq<u8>) -> Seq<Record> {
    choose|batch: Seq<Record>| holds_batch(bytes, batch)
}

/// No bytes are the text of two batches.
pub proof fn lemma_text_of_one(plain: Seq<u8>, first: Seq<Record>, second: Seq<Record>)
    requires
        is_text_of(plain, first),
        is_text_of(plain, second),
    ensures
        first == second,
{
    encode_utf8_decode_utf8(batch_text(first));
    encode_utf8_decode_utf8(batch_text(second));
    lemma_batch_text_injective(first, second);
}

/// A delta-log object holds one batch at the most, and that is the batch
/// that is read from it.
pub proof fn lemma_holds_one(bytes: Seq<u8>, batch: Seq<Record>)
    requires
        holds_batch(bytes, batch),
    ensures
        batch_in(bytes) == batch,
{
    lemma_text_of_one(zstd_plain(bytes)->Some_0, batch, batch_in(bytes));
}

/// Reads the batch whose text in UTF-8 `plain` is. Fails with `Malformed`
/// where `plain` is the text of no batch.
pub fn parse_log(plain: Vec<u8>) -> (parsed: Result<Vec<FileKey>, FileListError>)
    ensures
        match parsed {
            Ok(batch) => is_text_of(plain@, batch_view(batch@)),
            Err(error) => error == FileListError::Malformed && forall|batch: Seq<Record>|
                !is_text_of(plain@, batch),
        },
{
    let ghost bytes = plain@;
    proof {
        assert forall|batch: Seq<Record>| is_text_of(bytes, batch) implies valid_utf8(bytes)
            && decode_utf8(bytes) == batch_text(batch) by {
            encode_utf8_valid_utf8(batch_text(batch));
            encode_utf8_decode_utf8(batch_text(batch));
        }
    }
    match utf8_text(plain) {
        None => Err(FileListError::Malformed),
        Some(text) => match decode_batch(text.as_str()) {
            None => Err(FileListError::Malformed),
            Some(batch) => {
                proof {
                    decode_utf8_encode_utf8(bytes);
                }
                Ok(batch)
            },
        },
    }
}

/// Reads the batch that the delta-log object `bytes` holds. Fails with
/// `Decompression` where the decompressor reports an error, and with
/// `Malformed` where what was decompressed is the text of no batch.
pub fn read_log(bytes: &[u8]) -> (read: Result<Vec<FileKey>, FileListError>)
    ensures
        match read {
            Ok(batch) => holds_batch(bytes@, batch_view(batch@)),
            Err(error) => error == FileListError::Decompression || (error
                == FileListError::Malformed && forall|batch: Seq<Record>|
                !holds_batch(bytes@, batch)),
        },
{
    match decompress(bytes) {
        Ok(plain) => parse_log(plain),
        Err(error) => Err(error),
    }
}

/// Applies to `cache` the batch that the delta-log object `bytes` holds.
/// Where the object cannot be read, the index stays as it is.
pub fn replay_log(cache: &mut FileListCache, bytes: &[u8]) -> (replayed: Result<
    (),
    FileListError,
>)
    requires
        old(cache).wf(),
    ensures
        final(cache).wf(),
        match replayed {
            Ok(()) => holds_batch(bytes@, batch_in(bytes@)) && final(cache)@ == apply_batch(
                old(cache)@,
                batch_in(bytes@),
            ) && forall|scope: Scope|
                #[trigger] final(cache).arrival(scope) == arrival_after(
                    old(cache).arrival(scope),
                    old(cache)@,
                    batch_in(bytes@),
                    scope,
                ),
            Err(error) => final(cache)@ == old(cache)@ && (forall|scope: Scope|
                #[trigger] final(cache).arrival(scope) == old(cache).arrival(scope)) && (error
                == FileListError::Decompression || (error == FileListError::Malformed
                && forall|batch: Seq<Record>| !holds_batch(bytes@, batch))),
        },
{
    match read_log(bytes) {
        Ok(batch) => {
            proof {
                lemma_holds_one(bytes@, batch_view(batch@));
            }
            cache.apply(batch.as_slice());
            Ok(())
        },
        Err(error) => Err(error),
    }
}

} // verus!
