use file_list::codec::encode_batch;
use file_list::compress::{compress, decompress};
use file_list::decode::decode_batch;
use file_list::parse::{eat, read_i64, read_one, read_text, read_u64};
use file_list::reader::{parse_log, read_log, replay_log};
use file_list::text::chars_of;
use file_list::writer::prepare_log;
use file_list::{FileKey, FileListCache, FileListError, FileMeta, Lookup, StreamType};

const LINE: &str = "{\"key\":\"files/default/logs/olympics/2022/10/03/10/1.parquet\",\"meta\":{\"original_size\":1024,\"compressed_size\":10,\"records\":300,\"min_ts\":-5,\"max_ts\":1663064862606912},\"deleted\":false}\n";

fn record() -> FileKey {
    FileKey::new(
        "files/default/logs/olympics/2022/10/03/10/1.parquet",
        FileMeta {
            min_ts: -5,
            max_ts: 1663064862606912,
            records: 300,
            original_size: 1024,
            compressed_size: 10,
        },
        false,
    )
}

fn batch() -> Vec<FileKey> {
    vec![
        record(),
        FileKey::tombstone("files/default/logs/olympics/2022/10/03/10/2.parquet"),
        FileKey::new(
            "a\"b\\c\nd\re\tf\u{8}g\u{c}h\u{1}i\u{1f}j\u{7f}ké/",
            FileMeta {
                min_ts: i64::MIN,
                max_ts: i64::MAX,
                records: u64::MAX,
                original_size: 0,
                compressed_size: 7,
            },
            true,
        ),
    ]
}

#[test]
fn a_batch_is_read_back_from_its_text() {
    assert_eq!(decode_batch(LINE), Some(vec![record()]));
    assert_eq!(decode_batch(&encode_batch(&batch())), Some(batch()));
    assert_eq!(decode_batch(""), Some(vec![]));
}

#[test]
fn text_that_no_batch_has_is_refused() {
    let without_line_feed = &LINE[..LINE.len() - 1];
    assert_eq!(decode_batch(without_line_feed), None);
    assert_eq!(decode_batch(&format!("{}\n", LINE)), None);
    assert_eq!(decode_batch(&format!(" {}", LINE)), None);
    assert_eq!(decode_batch(&LINE.replace("\"meta\":{", "\"meta\": {")), None);
    assert_eq!(decode_batch(&LINE.replace("1024", "01024")), None);
    assert_eq!(decode_batch(&LINE.replace("1024", "")), None);
    assert_eq!(decode_batch(&LINE.replace("1024", "-1")), None);
    assert_eq!(decode_batch(&LINE.replace("-5", "-0")), None);
    assert_eq!(decode_batch(&LINE.replace("-5", "+5")), None);
    assert_eq!(decode_batch(&LINE.replace("1024", "18446744073709551616")), None);
    assert_eq!(decode_batch(&LINE.replace("-5", "-9223372036854775809")), None);
    assert_eq!(decode_batch(&LINE.replace("-5", "9223372036854775808")), None);
    assert_eq!(decode_batch(&LINE.replace("false", "False")), None);
    assert_eq!(decode_batch(&LINE.replace("false", "0")), None);
    assert_eq!(decode_batch(&LINE.replace("1.parquet", "1\\/parquet")), None);
    assert_eq!(decode_batch(&LINE.replace("1.parquet", "1\\u002eparquet")), None);
    assert_eq!(decode_batch(&LINE.replace("1.parquet", "1\\u000Aparquet")), None);
    assert_eq!(decode_batch(&LINE.replace("1.parquet", "1\u{1}parquet")), None);
    assert_eq!(decode_batch(&LINE.replace("1.parquet", "1\\")), None);
    assert_eq!(decode_batch("{}\n"), None);
    assert_eq!(decode_batch("\n"), None);
    let swapped = "{\"key\":\"k\",\"meta\":{\"compressed_size\":10,\"original_size\":1024,\"records\":300,\"min_ts\":-5,\"max_ts\":5},\"deleted\":false}\n";
    assert_eq!(decode_batch(swapped), None);
}

#[test]
fn the_widest_numbers_are_read_back() {
    let text = LINE
        .replace("1024", "18446744073709551615")
        .replace("-5", "-9223372036854775808")
        .replace("1663064862606912", "9223372036854775807");
    let read = decode_batch(&text).unwrap();
    assert_eq!(read[0].meta.original_size, u64::MAX);
    assert_eq!(read[0].meta.min_ts, i64::MIN);
    assert_eq!(read[0].meta.max_ts, i64::MAX);
}

#[test]
fn numbers_are_read_up_to_the_first_character_that_is_no_digit() {
    let s = chars_of("x120,-45y-z");
    assert_eq!(read_u64(&s, 1), Some((120, 4)));
    assert_eq!(read_u64(&s, 2), Some((20, 4)));
    assert_eq!(read_u64(&s, 0), None);
    assert_eq!(read_u64(&s, 4), None);
    assert_eq!(read_u64(&s, s.len()), None);
    assert_eq!(read_i64(&s, 5), Some((-45, 8)));
    assert_eq!(read_i64(&s, 1), Some((120, 4)));
    assert_eq!(read_i64(&s, 9), None);
    assert_eq!(read_u64(&chars_of("18446744073709551615"), 0), Some((u64::MAX, 20)));
    assert_eq!(read_u64(&chars_of("18446744073709551616"), 0), None);
    assert_eq!(read_u64(&chars_of("007"), 0), Some((7, 3)));
}

#[test]
fn strings_are_read_up_to_the_closing_quote() {
    let s = chars_of("ab\\n\\\"c\\u001f\" rest");
    assert_eq!(read_text(&s, 0), Some(("ab\n\"c\u{1f}".to_string(), 14)));
    assert_eq!(read_text(&chars_of("no end"), 0), None);
    assert_eq!(read_text(&chars_of("\""), 0), Some((String::new(), 1)));
    assert_eq!(read_one(&chars_of("\\t"), 0), Some(('\t', 2)));
    assert_eq!(read_one(&chars_of("\\x"), 0), None);
    assert_eq!(read_one(&chars_of("é"), 0), Some(('é', 1)));
    assert_eq!(eat(&s, 0, "ab"), Some(2));
    assert_eq!(eat(&s, 1, "ab"), None);
    assert_eq!(eat(&s, s.len(), ""), Some(s.len()));
    assert_eq!(eat(&s, s.len() - 1, "tt"), None);
}

#[test]
fn a_delta_log_object_is_read_back_as_its_batch() {
    let object = prepare_log(&batch()[..2], "7").unwrap().unwrap();
    assert_eq!(read_log(&object.bytes), Ok(batch()[..2].to_vec()));
    assert_eq!(decompress(&object.bytes), Ok(encode_batch(&batch()[..2]).into_bytes()));
}

#[test]
fn bytes_that_are_no_object_are_refused() {
    assert_eq!(read_log(b"not a zstd frame"), Err(FileListError::Decompression));
    assert_eq!(decompress(b"not a zstd frame"), Err(FileListError::Decompression));
    let other = compress(b"{}\n").unwrap();
    assert_eq!(read_log(&other), Err(FileListError::Malformed));
    let not_text = compress(&[0xff, 0xfe]).unwrap();
    assert_eq!(read_log(&not_text), Err(FileListError::Malformed));
    assert_eq!(parse_log(vec![0xff, 0xfe]), Err(FileListError::Malformed));
    assert_eq!(parse_log(LINE.as_bytes().to_vec()), Ok(vec![record()]));
    assert_eq!(parse_log(Vec::new()), Ok(vec![]));
}

#[test]
fn replaying_the_log_brings_an_index_up_to_date() {
    let key = "files/default/logs/olympics/2022/10/03/10/1.parquet";
    let added = prepare_log(&[record()], "1").unwrap().unwrap();
    let retired = prepare_log(&[FileKey::tombstone(key)], "2").unwrap().unwrap();

    let mut cache = FileListCache::new();
    assert_eq!(replay_log(&mut cache, &added.bytes), Ok(()));
    assert_eq!(cache.lookup(key), Lookup::Found(record().meta));
    assert_eq!(cache.query("default", "olympics", StreamType::Logs, -5, -5), vec![key]);

    assert_eq!(replay_log(&mut cache, b"junk"), Err(FileListError::Decompression));
    assert_eq!(cache.lookup(key), Lookup::Found(record().meta));

    assert_eq!(replay_log(&mut cache, &retired.bytes), Ok(()));
    assert_eq!(cache.lookup(key), Lookup::Retired);
    assert_eq!(replay_log(&mut cache, &added.bytes), Ok(()));
    assert_eq!(cache.lookup(key), Lookup::Retired);
}

#[test]
fn batches_that_agree_can_be_applied_in_either_order() {
    let a = "files/default/logs/olympics/2022/10/03/10/a.parquet";
    let b = "files/default/logs/olympics/2022/10/03/10/b.parquet";
    let meta = record().meta;
    let first = vec![FileKey::new(a, meta, false), FileKey::tombstone(b)];
    let second = vec![FileKey::new(b, meta, false), FileKey::new(a, meta, false)];
    let mut one = FileListCache::new();
    one.apply(&first);
    one.apply(&second);
    let mut other = FileListCache::new();
    other.apply(&second);
    other.apply(&first);
    for key in [a, b] {
        assert_eq!(one.lookup(key), other.lookup(key));
    }
    assert_eq!(one.lookup(a), Lookup::Found(meta));
    assert_eq!(one.lookup(b), Lookup::Retired);
}

#[test]
fn keys_come_in_the_order_in_which_they_became_known() {
    let key = |name: &str| format!("files/default/logs/olympics/2022/10/03/10/{}.parquet", name);
    let meta = record().meta;
    let mut cache = FileListCache::new();
    cache.apply(&[FileKey::new(&key("z"), meta, false), FileKey::new(&key("a"), meta, false)]);
    cache.apply(&[FileKey::new(&key("m"), meta, false), FileKey::new(&key("z"), meta, false)]);
    assert_eq!(
        cache.query("default", "olympics", StreamType::Logs, 0, 0),
        vec![key("z"), key("a"), key("m")]
    );
}
