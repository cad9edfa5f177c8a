//! The query surface of the catalog: listing segments, looking up metadata
//! and summing sizes.

use crate::cache::FileListCache;
use crate::error::FileListError;
use crate::index::{meta_or_zero, pick, selected, Entry};
use crate::key::Scope;
use crate::meta::{FileMeta, StreamType};
use crate::partition::key_views;
use vstd::prelude::*;

verus! {

/// The kind that a query without a kind asks for.
pub open spec fn kind_or_logs(stream_type: Option<StreamType>) -> StreamType {
    match stream_type {
        Some(kind) => kind,
        None => StreamType::Logs,
    }
}

/// The sum of the original sizes that count for `keys`.
pub open spec fn total_original(index: Map<Seq<char>, Entry>, keys: Seq<Seq<char>>) -> nat
    decreases keys.len(),
{
    if keys.len() == 0 {
        0
    } else {
        total_original(index, keys.drop_last()) + meta_or_zero(
            index,
            keys.last(),
        ).original_size as nat
    }
}

/// The sum of the compressed sizes that count for `keys`.
pub open spec fn total_compressed(index: Map<Seq<char>, Entry>, keys: Seq<Seq<char>>) -> nat
    decreases keys.len(),
{
    if keys.len() == 0 {
        0
    } else {
        total_compressed(index, keys.drop_last()) + meta_or_zero(
            index,
            keys.last(),
        ).compressed_size as nat
    }
}

/// The sum of the sizes in `sizes`, a size that is not known counting as zero.
pub open spec fn total_local(sizes: Seq<Option<u64>>) -> nat
    decreases sizes.len(),
{
    if sizes.len() == 0 {
        0
    } else {
        total_local(sizes.drop_last()) + (match sizes.last() {
            Some(size) => size as nat,
            None => 0,
        })
    }
}

/// The sum over the first keys is at most the sum over all.
pub proof fn lemma_total_original_grows(
    index: Map<Seq<char>, Entry>,
    keys: Seq<Seq<char>>,
    n: int,
)
    requires
        0 <= n <= keys.len(),
    ensures
        total_original(index, keys.take(n)) <= total_original(index, keys),
    decreases keys.len(),
{
    if n < keys.len() {
        assert(keys.drop_last().take(n) == keys.take(n));
        lemma_total_original_grows(index, keys.drop_last(), n);
    } else {
        assert(keys.take(n) == keys);
    }
}

/// The sum over the first keys is at most the sum over all.
pub proof fn lemma_total_compressed_grows(
    index: Map<Seq<char>, Entry>,
    keys: Seq<Seq<char>>,
    n: int,
)
    requires
        0 <= n <= keys.len(),
    ensures
        total_compressed(index, keys.take(n)) <= total_compressed(index, keys),
    decreases keys.len(),
{
    if n < keys.len() {
        assert(keys.drop_last().take(n) == keys.take(n));
        lemma_total_compressed_grows(index, keys.drop_last(), n);
    } else {
        assert(keys.take(n) == keys);
    }
}

/// The sum over the first sizes is at most the sum over all.
pub proof fn lemma_total_local_grows(sizes: Seq<Option<u64>>, n: int)
    requires
        0 <= n <= sizes.len(),
    ensures
        total_local(sizes.take(n)) <= total_local(sizes),
    decreases sizes.len(),
{
    if n < sizes.len() {
        assert(sizes.drop_last().take(n) == sizes.take(n));
        lemma_total_local_grows(sizes.drop_last(), n);
    } else {
        assert(sizes.take(n) == sizes);
    }
}

/// The keys of the live segments of a stream whose time span meets the
/// window `[time_min, time_max]`. A query without a kind asks for logs.
pub fn get_file_list(
    cache: &FileListCache,
    org_id: &str,
    stream_name: &str,
    stream_type: Option<StreamType>,
    time_min: i64,
    time_max: i64,
) -> (listed: Result<Vec<String>, FileListError>)
    requires
        cache.wf(),
    ensures
        listed is Ok,
        key_views(listed->Ok_0@) == pick(
            cache.arrival(
                Scope {
                    org: org_id@,
                    stream_type: kind_or_logs(stream_type).name(),
                    stream_name: stream_name@,
                },
            ),
            cache@,
            time_min,
            time_max,
        ),
        key_views(listed->Ok_0@).no_duplicates(),
        forall|key: Seq<char>|
            key_views(listed->Ok_0@).contains(key) <==> selected(
                cache@,
                key,
                org_id@,
                stream_name@,
                kind_or_logs(stream_type).name(),
                time_min,
                time_max,
            ),
{
    let kind = match stream_type {
        Some(kind) => kind,
        None => StreamType::Logs,
    };
    Ok(cache.query(org_id, stream_name, kind, time_min, time_max))
}

/// The metadata of the segment `file`: what the index holds for a live
/// segment, the zero value for a key that is unknown or retired. Never fails.
pub fn get_file_meta(cache: &FileListCache, file: &str) -> (found: Result<
    FileMeta,
    FileListError,
>)
    requires
        cache.wf(),
    ensures
        found == Ok::<FileMeta, FileListError>(meta_or_zero(cache@, file@)),
{
    Ok(cache.lookup(file).meta_or_default())
}

/// The sums of the original and of the compressed sizes of `files`, a key
/// that is unknown or retired counting as zero. Fails with `SizeOverflow`
/// where one of the sums does not fit in 64 bits.
pub fn calculate_files_size(cache: &FileListCache, files: &[String]) -> (sizes: Result<
    (u64, u64),
    FileListError,
>)
    requires
        cache.wf(),
    ensures
        match sizes {
            Ok((original, compressed)) => original == total_original(cache@, key_views(files@))
                && compressed == total_compressed(cache@, key_views(files@)),
            Err(error) => error == FileListError::SizeOverflow && (total_original(
                cache@,
                key_views(files@),
            ) > u64::MAX || total_compressed(cache@, key_views(files@)) > u64::MAX),
        },
{
    let ghost keys = key_views(files@);
    let mut original_size: u64 = 0;
    let mut compressed_size: u64 = 0;
    let count: usize = files.len();
    let mut i: usize = 0;
    while i < count
        invariant
            i <= count,
            count == files@.len(),
            cache.wf(),
            keys == key_views(files@),
            original_size == total_original(cache@, keys.take(i as int)),
            compressed_size == total_compressed(cache@, keys.take(i as int)),
        decreases count - i,
    {
        let meta = cache.lookup(files[i].as_str()).meta_or_default();
        proof {
            assert(keys.take(i + 1).drop_last() == keys.take(i as int));
            assert(keys.take(i + 1).last() == files@[i as int]@);
            lemma_total_original_grows(cache@, keys, i + 1);
            lemma_total_compressed_grows(cache@, keys, i + 1);
        }
        original_size = match original_size.checked_add(meta.original_size) {
            Some(sum) => sum,
            None => {
                return Err(FileListError::SizeOverflow);
            },
        };
        compressed_size = match compressed_size.checked_add(meta.compressed_size) {
            Some(sum) => sum,
            None => {
                return Err(FileListError::SizeOverflow);
            },
        };
        i = i + 1;
    }
    assert(keys.take(count as int) == keys);
    Ok((original_size, compressed_size))
}

/// The sum of the on-disk sizes `sizes`, one for each file; a file whose
/// size could not be read counts as zero. Fails with `SizeOverflow` where
/// the sum does not fit in 64 bits.
pub fn calculate_local_files_size(sizes: &[Option<u64>]) -> (total: Result<u64, FileListError>)
    ensures
        match total {
            Ok(sum) => sum == total_local(sizes@),
            Err(error) => error == FileListError::SizeOverflow && total_local(sizes@) > u64::MAX,
        },
{
    let mut size: u64 = 0;
    let count: usize = sizes.len();
    let mut i: usize = 0;
    while i < count
        invariant
            i <= count,
            count == sizes@.len(),
            size == total_local(sizes@.take(i as int)),
        decreases count - i,
    {
        let file_size: u64 = match sizes[i] {
            Some(len) => len,
            None => 0,
        };
        proof {
            assert(sizes@.take(i + 1).drop_last() == sizes@.take(i as int));
            assert(sizes@.take(i + 1).last() == sizes@[i as int]);
            lemma_total_local_grows(sizes@, i + 1);
        }
        size = match size.checked_add(file_size) {
            Some(sum) => sum,
            None => {
                return Err(FileListError::SizeOverflow);
            },
        };
        i = i + 1;
    }
    assert(sizes@.take(count as int) == sizes@);
    Ok(size)
}

/// The sum of the original sizes of `metas`.
pub open spec fn sum_original(metas: Seq<FileMeta>) -> nat
    decreases metas.len(),
{
    if metas.len() == 0 {
        0
    } else {
        sum_original(metas.drop_last()) + metas.last().original_size as nat
    }
}

/// The sum of the compressed sizes of `metas`.
pub open spec fn sum_compressed(metas: Seq<FileMeta>) -> nat
    decreases metas.len(),
{
    if metas.len() == 0 {
        0
    } else {
        sum_compressed(metas.drop_last()) + metas.last().compressed_size as nat
    }
}

/// The sum over the first of `metas` is at most the sum over all.
pub proof fn lemma_sums_grow(metas: Seq<FileMeta>, n: int)
    requires
        0 <= n <= metas.len(),
    ensures
        sum_original(metas.take(n)) <= sum_original(metas),
        sum_compressed(metas.take(n)) <= sum_compressed(metas),
    decreases metas.len(),
{
    if n < metas.len() {
        assert(metas.drop_last().take(n) == metas.take(n));
        lemma_sums_grow(metas.drop_last(), n);
    } else {
        assert(metas.take(n) == metas);
    }
}

/// The sums of the original and of the compressed sizes of `metas`, as a
/// caller has them that looked the segments up one by one. Fails with
/// `SizeOverflow` where one of the sums does not fit in 64 bits.
pub fn sum_sizes(metas: &[FileMeta]) -> (sizes: Result<(u64, u64), FileListError>)
    ensures
        match sizes {
            Ok((original, compressed)) => original == sum_original(metas@) && compressed
                == sum_compressed(metas@),
            Err(error) => error == FileListError::SizeOverflow && (sum_original(metas@)
                > u64::MAX || sum_compressed(metas@) > u64::MAX),
        },
{
    let mut original_size: u64 = 0;
    let mut compressed_size: u64 = 0;
    let count: usize = metas.len();
    let mut i: usize = 0;
    while i < count
        invariant
            i <= count,
            count == metas@.len(),
            original_size == sum_original(metas@.take(i as int)),
            compressed_size == sum_compressed(metas@.take(i as int)),
        decreases count - i,
    {
        proof {
            assert(metas@.take(i + 1).drop_last() == metas@.take(i as int));
            assert(metas@.take(i + 1).last() == metas@[i as int]);
            lemma_sums_grow(metas@, i + 1);
        }
        original_size = match original_size.checked_add(metas[i].original_size) {
            Some(sum) => sum,
            None => {
                return Err(FileListError::SizeOverflow);
            },
        };
        compressed_size = match compressed_size.checked_add(metas[i].compressed_size) {
            Some(sum) => sum,
            None => {
                return Err(FileListError::SizeOverflow);
            },
        };
        i = i + 1;
    }
    assert(metas@.take(count as int) == metas@);
    Ok((original_size, compressed_size))
}

/// The metadata that counts for each of `keys`, in order.
pub open spec fn metas_of(index: Map<Seq<char>, Entry>, keys: Seq<Seq<char>>) -> Seq<FileMeta> {
    keys.map_values(|key: Seq<char>| meta_or_zero(index, key))
}

/// Summing what was looked up key by key gives the sums over the keys.
pub proof fn lemma_totals_are_sums(index: Map<Seq<char>, Entry>, keys: Seq<Seq<char>>)
    ensures
        total_original(index, keys) == sum_original(metas_of(index, keys)),
        total_compressed(index, keys) == sum_compressed(metas_of(index, keys)),
    decreases keys.len(),
{
    if keys.len() > 0 {
        lemma_totals_are_sums(index, keys.drop_last());
        assert(metas_of(index, keys).drop_last() == metas_of(index, keys.drop_last()));
    }
}

} // verus!
