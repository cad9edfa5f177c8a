use file_list::{
    calculate_files_size, calculate_local_files_size, get_file_list, get_file_meta, sum_sizes,
    FileKey, FileListCache, FileListError, FileMeta, Lookup, StreamType,
};

fn meta(min_ts: i64, max_ts: i64, original_size: u64, compressed_size: u64) -> FileMeta {
    FileMeta { min_ts, max_ts, records: 1, original_size, compressed_size }
}

fn key(name: &str) -> String {
    format!("files/default/logs/olympics/2022/10/03/10/{}.parquet", name)
}

fn sorted(mut keys: Vec<String>) -> Vec<String> {
    keys.sort();
    keys
}

#[test]
fn test_get_file_meta() {
    let cache = FileListCache::new();
    let res = get_file_meta(
        &cache,
        "files/default/logs/olympics/2022/10/03/10/6982652937134804993_1.parquet",
    );
    assert!(res.is_ok());
}

#[test]
fn test_get_file_list() {
    let cache = FileListCache::new();
    let res = get_file_list(
        &cache,
        "default",
        "olympics",
        Some(StreamType::Logs),
        1663064862606912,
        1663064862606912,
    );
    assert!(res.is_ok());
}

#[test]
fn lookup_on_an_absent_key_gives_the_zero_value() {
    let cache = FileListCache::new();
    let found = get_file_meta(&cache, &key("1"));
    assert_eq!(found, Ok(FileMeta::default()));
    assert_eq!(
        FileMeta::default(),
        FileMeta { min_ts: 0, max_ts: 0, records: 0, original_size: 0, compressed_size: 0 }
    );
    assert_eq!(cache.lookup(&key("1")), Lookup::Missing);
}

#[test]
fn sizes_over_an_empty_cache_are_zero() {
    let cache = FileListCache::new();
    let files = vec!["files/default/logs/olympics/2022/10/03/10/1.parquet".to_string()];
    assert_eq!(calculate_files_size(&cache, &files), Ok((0, 0)));
}

#[test]
fn sizes_add_up_over_live_segments() {
    let mut cache = FileListCache::new();
    cache.apply(&[
        FileKey::new(&key("a"), meta(1, 2, 100, 10), false),
        FileKey::new(&key("b"), meta(1, 2, 250, 25), false),
        FileKey::new(&key("c"), meta(1, 2, 7, 3), true),
    ]);
    let files = vec![key("a"), key("b"), key("c"), key("unknown"), key("a")];
    assert_eq!(calculate_files_size(&cache, &files), Ok((450, 45)));
    assert_eq!(calculate_files_size(&cache, &[]), Ok((0, 0)));
}

#[test]
fn sizes_that_do_not_fit_are_an_error() {
    let mut cache = FileListCache::new();
    cache.apply(&[
        FileKey::new(&key("big"), meta(1, 2, u64::MAX, 1), false),
        FileKey::new(&key("one"), meta(1, 2, 1, u64::MAX), false),
    ]);
    assert_eq!(calculate_files_size(&cache, &[key("big")]), Ok((u64::MAX, 1)));
    assert_eq!(
        calculate_files_size(&cache, &[key("big"), key("one")]),
        Err(FileListError::SizeOverflow)
    );
    assert_eq!(
        calculate_files_size(&cache, &[key("one"), key("one")]),
        Err(FileListError::SizeOverflow)
    );
}

#[test]
fn local_sizes_add_up_and_unknown_counts_as_zero() {
    assert_eq!(calculate_local_files_size(&[]), Ok(0));
    assert_eq!(calculate_local_files_size(&[Some(5), None, Some(37)]), Ok(42));
    assert_eq!(calculate_local_files_size(&[None, None]), Ok(0));
    assert_eq!(
        calculate_local_files_size(&[Some(u64::MAX), None, Some(1)]),
        Err(FileListError::SizeOverflow)
    );
    assert_eq!(calculate_local_files_size(&[Some(u64::MAX), None]), Ok(u64::MAX));
}

#[test]
fn range_query_returns_the_overlapping_live_segments() {
    let mut cache = FileListCache::new();
    cache.apply(&[
        FileKey::new(&key("A"), meta(100, 200, 1, 1), false),
        FileKey::new(&key("B"), meta(150, 250, 1, 1), false),
        FileKey::new(&key("C"), meta(300, 400, 1, 1), false),
    ]);
    let hits = cache.query("default", "olympics", StreamType::Logs, 180, 220);
    assert_eq!(sorted(hits), vec![key("A"), key("B")]);

    cache.apply(&[FileKey::tombstone(&key("A"))]);
    let hits = cache.query("default", "olympics", StreamType::Logs, 180, 220);
    assert_eq!(hits, vec![key("B")]);
}

#[test]
fn range_query_counts_the_ends_of_the_window() {
    let mut cache = FileListCache::new();
    cache.apply(&[FileKey::new(&key("A"), meta(100, 200, 1, 1), false)]);
    assert_eq!(cache.query("default", "olympics", StreamType::Logs, 200, 300), vec![key("A")]);
    assert_eq!(cache.query("default", "olympics", StreamType::Logs, 0, 100), vec![key("A")]);
    assert!(cache.query("default", "olympics", StreamType::Logs, 201, 300).is_empty());
    assert!(cache.query("default", "olympics", StreamType::Logs, 0, 99).is_empty());
}

#[test]
fn query_keeps_to_its_partition() {
    let mut cache = FileListCache::new();
    let logs = "files/default/logs/olympics/2022/10/03/10/1.parquet";
    let metrics = "files/default/metrics/olympics/2022/10/03/10/2.parquet";
    let other_org = "files/acme/logs/olympics/2022/10/03/10/3.parquet";
    let other_stream = "files/default/logs/games/2022/10/03/10/4.parquet";
    cache.apply(&[
        FileKey::new(logs, meta(1, 9, 1, 1), false),
        FileKey::new(metrics, meta(1, 9, 1, 1), false),
        FileKey::new(other_org, meta(1, 9, 1, 1), false),
        FileKey::new(other_stream, meta(1, 9, 1, 1), false),
    ]);
    assert_eq!(cache.query("default", "olympics", StreamType::Logs, 0, 10), vec![logs]);
    assert_eq!(cache.query("default", "olympics", StreamType::Metrics, 0, 10), vec![metrics]);
    assert_eq!(cache.query("acme", "olympics", StreamType::Logs, 0, 10), vec![other_org]);
    assert_eq!(cache.query("default", "games", StreamType::Logs, 0, 10), vec![other_stream]);
    assert!(cache.query("default", "olympics", StreamType::Traces, 0, 10).is_empty());
    assert_eq!(
        get_file_list(&cache, "default", "olympics", None, 0, 10),
        Ok(vec![logs.to_string()])
    );
}

#[test]
fn applying_a_batch_twice_changes_nothing() {
    let batch = vec![
        FileKey::new(&key("a"), meta(10, 20, 5, 2), false),
        FileKey::tombstone(&key("b")),
        FileKey::new(&key("b"), meta(10, 20, 6, 3), false),
        FileKey::new(&key("c"), meta(15, 30, 7, 4), false),
        FileKey::new(&key("c"), meta(40, 50, 8, 5), false),
    ];
    let mut once = FileListCache::new();
    once.apply(&[FileKey::new(&key("c"), meta(1, 2, 3, 4), false)]);
    once.apply(&batch);
    let mut twice = FileListCache::new();
    twice.apply(&[FileKey::new(&key("c"), meta(1, 2, 3, 4), false)]);
    twice.apply(&batch);
    twice.apply(&batch);
    for (lo, hi) in [(0, 100), (10, 20), (35, 60), (21, 39)] {
        assert_eq!(
            once.query("default", "olympics", StreamType::Logs, lo, hi),
            twice.query("default", "olympics", StreamType::Logs, lo, hi)
        );
    }
    assert_eq!(once.query("default", "olympics", StreamType::Logs, 0, 100), vec![key("c"), key("a")]);
    for name in ["a", "b", "c", "d"] {
        assert_eq!(once.lookup(&key(name)), twice.lookup(&key(name)));
    }
    assert_eq!(once.lookup(&key("c")), Lookup::Found(meta(40, 50, 8, 5)));
    assert_eq!(once.lookup(&key("b")), Lookup::Retired);
}

#[test]
fn a_tombstone_is_final() {
    let mut cache = FileListCache::new();
    cache.apply(&[
        FileKey::new(&key("a"), meta(10, 20, 5, 2), false),
        FileKey::new(&key("a"), meta(10, 20, 9, 9), true),
    ]);
    cache.apply(&[FileKey::new(&key("a"), meta(10, 20, 5, 2), false)]);
    assert!(cache.query("default", "olympics", StreamType::Logs, i64::MIN, i64::MAX).is_empty());
    assert_eq!(cache.lookup(&key("a")), Lookup::Retired);
    assert_eq!(get_file_meta(&cache, &key("a")), Ok(FileMeta::default()));
    assert_eq!(calculate_files_size(&cache, &[key("a")]), Ok((0, 0)));
}

#[test]
fn a_tombstone_for_an_unknown_key_is_kept() {
    let mut cache = FileListCache::new();
    cache.apply(&[FileKey::tombstone(&key("a"))]);
    assert_eq!(cache.lookup(&key("a")), Lookup::Retired);
    cache.apply(&[FileKey::new(&key("a"), meta(10, 20, 5, 2), false)]);
    assert_eq!(cache.lookup(&key("a")), Lookup::Retired);
}

#[test]
fn the_last_record_for_a_live_key_wins() {
    let mut cache = FileListCache::new();
    cache.apply(&[FileKey::new(&key("a"), meta(10, 20, 5, 2), false)]);
    cache.apply(&[FileKey::new(&key("a"), meta(30, 40, 6, 3), false)]);
    assert_eq!(cache.lookup(&key("a")), Lookup::Found(meta(30, 40, 6, 3)));
    assert!(cache.query("default", "olympics", StreamType::Logs, 10, 20).is_empty());
}

#[test]
fn records_with_keys_of_another_shape_are_inert() {
    let mut cache = FileListCache::new();
    cache.apply(&[
        FileKey::new("files/default/logs/olympics/2022/10/03/1.parquet", meta(1, 2, 3, 4), false),
        FileKey::new("data/default/logs/olympics/2022/10/03/10/1.parquet", meta(1, 2, 3, 4), false),
        FileKey::new("", meta(1, 2, 3, 4), false),
    ]);
    assert_eq!(
        cache.lookup("files/default/logs/olympics/2022/10/03/1.parquet"),
        Lookup::Missing
    );
    assert_eq!(
        cache.lookup("data/default/logs/olympics/2022/10/03/10/1.parquet"),
        Lookup::Missing
    );
    assert_eq!(cache.lookup(""), Lookup::Missing);
    assert!(cache.query("default", "olympics", StreamType::Logs, i64::MIN, i64::MAX).is_empty());
}

#[test]
fn stream_kinds_have_their_path_segments() {
    assert_eq!(StreamType::Logs.as_str(), "logs");
    assert_eq!(StreamType::Metrics.as_str(), "metrics");
    assert_eq!(StreamType::Traces.as_str(), "traces");
    assert_eq!(StreamType::Metadata.as_str(), "metadata");
    assert_eq!(StreamType::Filelist.as_str(), "file_list");
    assert_eq!(StreamType::default(), StreamType::Logs);
}

#[test]
fn found_metadata_or_the_zero_value() {
    let m = meta(1, 2, 3, 4);
    assert_eq!(Lookup::Found(m).meta_or_default(), m);
    assert_eq!(Lookup::Retired.meta_or_default(), FileMeta::default());
    assert_eq!(Lookup::Missing.meta_or_default(), FileMeta::default());
}

#[test]
fn looked_up_sizes_add_up() {
    assert_eq!(sum_sizes(&[]), Ok((0, 0)));
    assert_eq!(
        sum_sizes(&[meta(1, 2, 100, 10), FileMeta::default(), meta(1, 2, 250, 25)]),
        Ok((350, 35))
    );
    assert_eq!(
        sum_sizes(&[meta(1, 2, u64::MAX, 0), meta(1, 2, 1, 0)]),
        Err(FileListError::SizeOverflow)
    );
    assert_eq!(
        sum_sizes(&[meta(1, 2, 0, u64::MAX), meta(1, 2, 0, 1)]),
        Err(FileListError::SizeOverflow)
    );
}
