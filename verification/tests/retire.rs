use file_list::codec::{encode_batch, encode_record};
use file_list::compress::compress;
use file_list::key::{check_segment_key, SegmentPath};
use file_list::retire::{RetireAction, RetireState, Retirement};
use file_list::text::{chars_of, split_bounds};
use file_list::writer::{prepare_log, LogObject};
use file_list::{FileKey, FileListError, FileMeta};

const KEY: &str = "files/default/logs/olympics/2022/10/03/10/6982652937134804993_1.parquet";

const TOMBSTONE_LINE: &str = "{\"key\":\"files/default/logs/olympics/2022/10/03/10/6982652937134804993_1.parquet\",\"meta\":{\"original_size\":0,\"compressed_size\":0,\"records\":0,\"min_ts\":0,\"max_ts\":0},\"deleted\":true}\n";

#[test]
fn segment_keys_have_nine_segments_and_start_with_files() {
    assert!(check_segment_key(KEY));
    assert!(check_segment_key("files/a/b/c/d/e/f/g/h"));
    assert!(check_segment_key("files/a/b/c/d/e/f/g/h/i/j"));
    assert!(check_segment_key("files////////"));
    assert!(!check_segment_key("files/a/b/c/d/e/f/g"));
    assert!(!check_segment_key("file/a/b/c/d/e/f/g/h"));
    assert!(!check_segment_key("/files/a/b/c/d/e/f/g/h"));
    assert!(!check_segment_key("files"));
    assert!(!check_segment_key(""));
}

#[test]
fn a_segment_key_is_read_part_by_part() {
    let path = SegmentPath::parse(KEY).unwrap();
    assert_eq!(path.org, "default");
    assert_eq!(path.stream_type, "logs");
    assert_eq!(path.stream_name, "olympics");
    assert_eq!(path.year, "2022");
    assert_eq!(path.month, "10");
    assert_eq!(path.day, "03");
    assert_eq!(path.hour, "10");
    assert_eq!(path.delta_log_name("7001"), "file_list/2022/10/03/10/7001.json.zst");
    assert_eq!(SegmentPath::parse("files/default/logs"), None);
}

#[test]
fn a_key_with_wide_characters_is_cut_by_characters() {
    let path = SegmentPath::parse("files/örg/logs/ström/2022/10/03/10/ü.parquet").unwrap();
    assert_eq!(path.org, "örg");
    assert_eq!(path.stream_name, "ström");
    assert_eq!(path.hour, "10");
}

#[test]
fn text_is_cut_at_every_separator() {
    let chars = chars_of("a//bc/");
    assert_eq!(chars, vec!['a', '/', '/', 'b', 'c', '/']);
    assert_eq!(split_bounds(&chars, '/'), vec![(0, 1), (2, 2), (3, 5), (6, 6)]);
    assert_eq!(split_bounds(&chars_of(""), '/'), vec![(0, 0)]);
    assert_eq!(split_bounds(&chars_of("abc"), '/'), vec![(0, 3)]);
}

#[test]
fn a_record_is_one_json_object() {
    let record = FileKey::new(
        KEY,
        FileMeta {
            min_ts: -1663064862606912,
            max_ts: 1663064862606912,
            records: 300,
            original_size: 1024,
            compressed_size: 10,
        },
        false,
    );
    assert_eq!(
        encode_record(&record),
        "{\"key\":\"files/default/logs/olympics/2022/10/03/10/6982652937134804993_1.parquet\",\"meta\":{\"original_size\":1024,\"compressed_size\":10,\"records\":300,\"min_ts\":-1663064862606912,\"max_ts\":1663064862606912},\"deleted\":false}"
    );
    assert_eq!(encode_batch(&[FileKey::tombstone(KEY)]), TOMBSTONE_LINE);
    assert_eq!(
        encode_batch(&[FileKey::tombstone(KEY), FileKey::tombstone(KEY)]),
        format!("{}{}", TOMBSTONE_LINE, TOMBSTONE_LINE)
    );
    assert_eq!(encode_batch(&[]), "");
}

#[test]
fn numbers_are_written_in_full() {
    let record = FileKey::new(
        "k",
        FileMeta {
            min_ts: i64::MIN,
            max_ts: i64::MAX,
            records: u64::MAX,
            original_size: 10,
            compressed_size: 9,
        },
        true,
    );
    assert_eq!(
        encode_record(&record),
        "{\"key\":\"k\",\"meta\":{\"original_size\":10,\"compressed_size\":9,\"records\":18446744073709551615,\"min_ts\":-9223372036854775808,\"max_ts\":9223372036854775807},\"deleted\":true}"
    );
}

#[test]
fn quotes_backslashes_and_control_characters_are_escaped() {
    let record = FileKey::new("a\"b\\c\nd\re\tf\u{8}g\u{c}h\u{1}i\u{1f}j\u{7f}ké", FileMeta::default(), false);
    assert_eq!(
        encode_record(&record),
        "{\"key\":\"a\\\"b\\\\c\\nd\\re\\tf\\bg\\fh\\u0001i\\u001fj\u{7f}ké\",\"meta\":{\"original_size\":0,\"compressed_size\":0,\"records\":0,\"min_ts\":0,\"max_ts\":0},\"deleted\":false}"
    );
}

#[test]
fn a_delta_log_object_holds_the_batch_compressed() {
    let batch = vec![FileKey::tombstone(KEY)];
    let object = prepare_log(&batch, "42").unwrap().unwrap();
    assert_eq!(object.name, "file_list/2022/10/03/10/42.json.zst");
    assert_ne!(object.bytes, TOMBSTONE_LINE.as_bytes());
    assert_eq!(zstd::decode_all(&object.bytes[..]).unwrap(), TOMBSTONE_LINE.as_bytes());
    let frame = compress(TOMBSTONE_LINE.as_bytes()).unwrap();
    assert_ne!(frame, TOMBSTONE_LINE.as_bytes());
    assert_eq!(zstd::decode_all(&frame[..]).unwrap(), TOMBSTONE_LINE.as_bytes());
}

#[test]
fn a_batch_without_a_place_in_the_log_gives_no_object() {
    assert_eq!(prepare_log(&[], "42"), Ok(None));
    assert_eq!(prepare_log(&[FileKey::tombstone("files/a/b")], "42"), Ok(None));
}

#[test]
fn the_name_comes_from_the_first_record() {
    let batch = vec![
        FileKey::tombstone("files/o/logs/s/2021/01/02/03/a.parquet"),
        FileKey::tombstone("files/o/logs/s/2022/04/05/06/b.parquet"),
    ];
    let object = prepare_log(&batch, "id").unwrap().unwrap();
    assert_eq!(object.name, "file_list/2021/01/02/03/id.json.zst");
    let text = zstd::decode_all(&object.bytes[..]).unwrap();
    assert_eq!(String::from_utf8(text).unwrap().lines().count(), 2);
}

#[test]
fn retirement_goes_through_its_steps_in_order() {
    let (mut retirement, first) = Retirement::start(KEY, "42");
    assert_eq!(retirement.current(), RetireState::Requested);
    assert!(!retirement.is_done());
    match first {
        RetireAction::PutLog { name, bytes } => {
            assert_eq!(name, "file_list/2022/10/03/10/42.json.zst");
            assert_eq!(zstd::decode_all(&bytes[..]).unwrap(), TOMBSTONE_LINE.as_bytes());
        }
        other => panic!("{:?}", other),
    }
    assert_eq!(
        retirement.step(true),
        RetireAction::RecordProgress { record: FileKey::tombstone(KEY) }
    );
    assert_eq!(retirement.current(), RetireState::LogPersisted);
    assert_eq!(retirement.step(true), RetireAction::Send { batch: vec![FileKey::tombstone(KEY)] });
    assert_eq!(retirement.current(), RetireState::ProgressRecorded);
    assert_eq!(retirement.step(true), RetireAction::DeleteObject { key: KEY.to_string() });
    assert_eq!(retirement.current(), RetireState::Broadcast);
    assert_eq!(retirement.step(true), RetireAction::Finish { result: Ok(()) });
    assert_eq!(retirement.current(), RetireState::PhysicallyDeleted);
    assert!(retirement.is_done());
    assert_eq!(retirement.step(false), RetireAction::Finish { result: Ok(()) });
    assert_eq!(retirement.current(), RetireState::PhysicallyDeleted);
}

#[test]
fn a_key_of_another_shape_is_skipped_without_any_action() {
    for key in ["files/default/logs/olympics/2022/10/03/1.parquet", "data/a/b/c/d/e/f/g/h", ""] {
        let (mut retirement, first) = Retirement::start(key, "42");
        assert_eq!(first, RetireAction::Finish { result: Ok(()) });
        assert_eq!(retirement.current(), RetireState::Skipped);
        assert!(retirement.is_done());
        assert_eq!(retirement.step(true), RetireAction::Finish { result: Ok(()) });
        assert_eq!(retirement.current(), RetireState::Skipped);
    }
}

#[test]
fn a_crash_after_the_log_is_stored_has_deleted_nothing() {
    let (mut retirement, first) = Retirement::start(KEY, "42");
    let mut handed_out = vec![first];
    handed_out.push(retirement.step(true));
    assert_eq!(retirement.current(), RetireState::LogPersisted);
    assert!(handed_out.iter().all(|action| !matches!(action, RetireAction::DeleteObject { .. })));
    assert!(matches!(handed_out[0], RetireAction::PutLog { .. }));
}

#[test]
fn a_failed_durable_write_fails_the_retirement() {
    let (mut retirement, _) = Retirement::start(KEY, "42");
    assert_eq!(
        retirement.step(false),
        RetireAction::Finish { result: Err(FileListError::LogWrite) }
    );
    assert_eq!(retirement.current(), RetireState::Failed(FileListError::LogWrite));
    assert!(retirement.is_done());
    assert_eq!(
        retirement.step(true),
        RetireAction::Finish { result: Err(FileListError::LogWrite) }
    );

    let (mut retirement, _) = Retirement::start(KEY, "42");
    retirement.step(true);
    assert_eq!(
        retirement.step(false),
        RetireAction::Finish { result: Err(FileListError::ProgressWrite) }
    );
    assert_eq!(retirement.current(), RetireState::Failed(FileListError::ProgressWrite));
}

#[test]
fn best_effort_steps_do_not_fail_the_retirement() {
    let (mut retirement, _) = Retirement::start(KEY, "42");
    retirement.step(true);
    retirement.step(true);
    assert_eq!(retirement.step(false), RetireAction::DeleteObject { key: KEY.to_string() });
    assert_eq!(retirement.step(false), RetireAction::Finish { result: Ok(()) });
    assert_eq!(retirement.current(), RetireState::PhysicallyDeleted);
}

#[test]
fn retirement_begins_with_what_preparing_the_object_gave() {
    let object = LogObject { name: "n".to_string(), bytes: vec![1, 2, 3] };
    let (retirement, first) = Retirement::begin(KEY, Ok(Some(object)));
    assert_eq!(first, RetireAction::PutLog { name: "n".to_string(), bytes: vec![1, 2, 3] });
    assert_eq!(retirement.current(), RetireState::Requested);

    let (retirement, first) = Retirement::begin(KEY, Err(FileListError::Compression));
    assert_eq!(first, RetireAction::Finish { result: Err(FileListError::Compression) });
    assert_eq!(retirement.current(), RetireState::Failed(FileListError::Compression));

    let (retirement, first) = Retirement::begin(KEY, Ok(None));
    assert_eq!(first, RetireAction::Finish { result: Ok(()) });
    assert_eq!(retirement.current(), RetireState::Skipped);

    let object = LogObject { name: "n".to_string(), bytes: vec![1, 2, 3] };
    let (retirement, first) = Retirement::begin("files/a", Ok(Some(object)));
    assert_eq!(first, RetireAction::Finish { result: Ok(()) });
    assert_eq!(retirement.current(), RetireState::Skipped);
}

#[test]
fn every_failure_has_its_sentence() {
    let all = [
        FileListError::SizeOverflow,
        FileListError::Compression,
        FileListError::Decompression,
        FileListError::Malformed,
        FileListError::LogWrite,
        FileListError::ProgressWrite,
    ];
    for (i, a) in all.iter().enumerate() {
        assert!(!a.message().is_empty());
        for b in &all[i + 1..] {
            assert_ne!(a.message(), b.message());
        }
    }
}

#[test]
fn retirement_is_taken_up_after_the_log_is_stored() {
    let (mut retirement, action) = Retirement::resume(KEY);
    assert_eq!(retirement.current(), RetireState::LogPersisted);
    assert_eq!(action, RetireAction::RecordProgress { record: FileKey::tombstone(KEY) });
    assert_eq!(retirement.step(true), RetireAction::Send { batch: vec![FileKey::tombstone(KEY)] });

    let (retirement, action) = Retirement::resume("files/a/b");
    assert_eq!(retirement.current(), RetireState::Skipped);
    assert_eq!(action, RetireAction::Finish { result: Ok(()) });
}
