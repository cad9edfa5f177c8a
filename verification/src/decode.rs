//! Reading a batch back from its text.

use crate::codec::{
    batch_text, decimal, encode_batch, escape, flag, meta_json, quoted, record_json,
    signed_decimal,
};
use crate::meta::{batch_view, FileKey, FileMeta, Record};
use crate::parse::{
    at, eat, eat_at, fit_i64, fit_u64, lemma_at_split, lemma_read_decimal,
    lemma_read_escaped, lemma_read_signed_decimal, read_i64, read_int, read_nat, read_string,
    read_text, read_u64,
};
use crate::text::chars_of;
use vstd::prelude::*;

verus! {

/// The flag that stands at `i`, and where what follows it begins.
pub open spec fn read_flag(s: Seq<char>, i: int) -> Option<(bool, int)> {
    if at(s, i, "true"@) {
        Some((true, i + "true"@.len()))
    } else if at(s, i, "false"@) {
        Some((false, i + "false"@.len()))
    } else {
        None
    }
}

/// The metadata whose JSON object stands at `i`, and where what follows it
/// begins.
pub open spec fn read_meta(s: Seq<char>, i: int) -> Option<(FileMeta, int)> {
    match eat_at(s, i, "{\"original_size\":"@) {
        Some(c1) => match fit_u64(read_nat(s, c1)) {
            Some((original_size, c2)) => match eat_at(s, c2, ",\"compressed_size\":"@) {
                Some(c3) => match fit_u64(read_nat(s, c3)) {
                    Some((compressed_size, c4)) => match eat_at(s, c4, ",\"records\":"@) {
                        Some(c5) => match fit_u64(read_nat(s, c5)) {
                            Some((records, c6)) => match eat_at(s, c6, ",\"min_ts\":"@) {
                                Some(c7) => match fit_i64(read_int(s, c7)) {
                                    Some((min_ts, c8)) => match eat_at(s, c8, ",\"max_ts\":"@) {
                                        Some(c9) => match fit_i64(read_int(s, c9)) {
                                            Some((max_ts, c10)) => match eat_at(s, c10, "}"@) {
                                                Some(c11) => Some(
                                                    (
                                                        FileMeta {
                                                            min_ts,
                                                            max_ts,
                                                            records,
                                                            original_size,
                                                            compressed_size,
                                                        },
                                                        c11,
                                                    ),
                                                ),
                                                None => None,
                                            },
                                            None => None,
                                        },
                                        None => None,
                                    },
                                    None => None,
                                },
                                None => None,
                            },
                            None => None,
                        },
                        None => None,
                    },
                    None => None,
                },
                None => None,
            },
            None => None,
        },
        None => None,
    }
}

/// The record whose JSON object stands at `i`, and where what follows it
/// begins.
pub open spec fn read_record(s: Seq<char>, i: int) -> Option<(Record, int)> {
    match eat_at(s, i, "{\"key\":\""@) {
        Some(c1) => match read_string(s, c1) {
            Some((key, c2)) => match eat_at(s, c2, ",\"meta\":"@) {
                Some(c3) => match read_meta(s, c3) {
                    Some((meta, c4)) => match eat_at(s, c4, ",\"deleted\":"@) {
                        Some(c5) => match read_flag(s, c5) {
                            Some((deleted, c6)) => match eat_at(s, c6, "}"@) {
                                Some(c7) => Some((Record { key, meta, deleted }, c7)),
                                None => None,
                            },
                            None => None,
                        },
                        None => None,
                    },
                    None => None,
                },
                None => None,
            },
            None => None,
        },
        None => None,
    }
}

/// `found` with `done` put before its records.
pub open spec fn join(done: Seq<Record>, found: Option<Seq<Record>>) -> Option<Seq<Record>> {
    match found {
        Some(rest) => Some(done + rest),
        None => None,
    }
}

/// The records whose lines stand from `i` to the end of `s`.
pub open spec fn read_batch(s: Seq<char>, i: int) -> Option<Seq<Record>>
    decreases s.len() - i,
{
    if i == s.len() {
        Some(Seq::empty())
    } else if !(0 <= i < s.len()) {
        None
    } else {
        match read_record(s, i) {
            Some((record, end)) => if i <= end < s.len() && s[end] == '\n' {
                join(seq![record], read_batch(s, end + 1))
            } else {
                None
            },
            None => None,
        }
    }
}

/// Where a piece that is not empty stands, its first character stands.
pub proof fn lemma_at_first(s: Seq<char>, i: int, piece: Seq<char>)
    requires
        at(s, i, piece),
        piece.len() > 0,
    ensures
        i < s.len(),
        s[i] == piece[0],
{
    assert(s.subrange(i, i + piece.len())[0] == s[i]);
}

/// The JSON object of a segment's metadata is read as the metadata.
pub proof fn lemma_read_meta(s: Seq<char>, i: int, meta: FileMeta)
    requires
        at(s, i, meta_json(meta)),
    ensures
        read_meta(s, i) == Some((meta, i + meta_json(meta).len())),
{
    reveal_strlit(",\"compressed_size\":");
    reveal_strlit(",\"records\":");
    reveal_strlit(",\"min_ts\":");
    reveal_strlit(",\"max_ts\":");
    reveal_strlit("}");
    let k1 = "{\"original_size\":"@;
    let d1 = decimal(meta.original_size as nat);
    let k2 = ",\"compressed_size\":"@;
    let d2 = decimal(meta.compressed_size as nat);
    let k3 = ",\"records\":"@;
    let d3 = decimal(meta.records as nat);
    let k4 = ",\"min_ts\":"@;
    let d4 = signed_decimal(meta.min_ts as int);
    let k5 = ",\"max_ts\":"@;
    let d5 = signed_decimal(meta.max_ts as int);
    let k6 = "}"@;
    let a2 = k1 + d1;
    let a3 = a2 + k2;
    let a4 = a3 + d2;
    let a5 = a4 + k3;
    let a6 = a5 + d3;
    let a7 = a6 + k4;
    let a8 = a7 + d4;
    let a9 = a8 + k5;
    let a10 = a9 + d5;
    assert(meta_json(meta) == a10 + k6);
    lemma_at_split(s, i, a10, k6);
    lemma_at_split(s, i, a9, d5);
    lemma_at_split(s, i, a8, k5);
    lemma_at_split(s, i, a7, d4);
    lemma_at_split(s, i, a6, k4);
    lemma_at_split(s, i, a5, d3);
    lemma_at_split(s, i, a4, k3);
    lemma_at_split(s, i, a3, d2);
    lemma_at_split(s, i, a2, k2);
    lemma_at_split(s, i, k1, d1);
    lemma_at_first(s, i + a2.len(), k2);
    lemma_at_first(s, i + a4.len(), k3);
    lemma_at_first(s, i + a6.len(), k4);
    lemma_at_first(s, i + a8.len(), k5);
    lemma_at_first(s, i + a10.len(), k6);
    lemma_read_decimal(s, i + k1.len(), meta.original_size as nat);
    lemma_read_decimal(s, i + a3.len(), meta.compressed_size as nat);
    lemma_read_decimal(s, i + a5.len(), meta.records as nat);
    lemma_read_signed_decimal(s, i + a7.len(), meta.min_ts as int);
    lemma_read_signed_decimal(s, i + a9.len(), meta.max_ts as int);
}

/// The JSON object of a record is read as the record.
pub proof fn lemma_read_record(s: Seq<char>, i: int, record: Record)
    requires
        at(s, i, record_json(record)),
    ensures
        read_record(s, i) == Some((record, i + record_json(record).len())),
        record_json(record).len() > 0,
{
    reveal_strlit("{\"key\":\"");
    reveal_strlit("{\"key\":");
    reveal_strlit("true");
    reveal_strlit("false");
    reveal_strlit("}");
    let l1 = "{\"key\":"@;
    let q = quoted(record.key);
    let l2 = ",\"meta\":"@;
    let m = meta_json(record.meta);
    let l3 = ",\"deleted\":"@;
    let f = flag(record.deleted);
    let l4 = "}"@;
    let b2 = l1 + q;
    let b3 = b2 + l2;
    let b4 = b3 + m;
    let b5 = b4 + l3;
    let b6 = b5 + f;
    assert(record_json(record) == b6 + l4);
    lemma_at_split(s, i, b6, l4);
    lemma_at_split(s, i, b5, f);
    lemma_at_split(s, i, b4, l3);
    lemma_at_split(s, i, b3, m);
    lemma_at_split(s, i, b2, l2);
    lemma_at_split(s, i, l1, q);
    let body = escape(record.key) + seq!['"'];
    assert(q =~= seq!['"'] + body);
    lemma_at_split(s, i + l1.len(), seq!['"'], body);
    lemma_at_first(s, i + l1.len(), seq!['"']);
    assert(at(s, i, "{\"key\":\""@)) by {
        assert(s.subrange(i, i + l1.len() + 1) =~= l1.push('"'));
        assert("{\"key\":\""@ =~= l1.push('"'));
    }
    lemma_read_escaped(s, i + l1.len() + 1, record.key);
    lemma_read_meta(s, i + b3.len(), record.meta);
    lemma_at_first(s, i + b5.len(), f);
}

/// The text of two batches, one after the other, is the text of the two
/// as one batch.
pub proof fn lemma_batch_text_concat(first: Seq<Record>, second: Seq<Record>)
    ensures
        batch_text(first + second) == batch_text(first) + batch_text(second),
    decreases second.len(),
{
    if second.len() == 0 {
        assert(first + second =~= first);
        assert(batch_text(first) + batch_text(second) =~= batch_text(first));
    } else {
        let all = first + second;
        assert(all.drop_last() =~= first + second.drop_last());
        assert(all.last() == second.last());
        lemma_batch_text_concat(first, second.drop_last());
        assert(batch_text(all) =~= batch_text(first) + batch_text(second));
    }
}

/// The text of a batch, standing at the end of `s`, is read as the batch.
pub proof fn lemma_read_batch(s: Seq<char>, i: int, batch: Seq<Record>)
    requires
        at(s, i, batch_text(batch)),
        i + batch_text(batch).len() == s.len(),
    ensures
        read_batch(s, i) == Some(batch),
    decreases batch.len(),
{
    if batch.len() == 0 {
        assert(batch =~= Seq::<Record>::empty());
    } else {
        let record = batch[0];
        let rest = batch.skip(1);
        assert(batch =~= seq![record] + rest);
        lemma_batch_text_concat(seq![record], rest);
        assert(seq![record].drop_last() =~= Seq::<Record>::empty());
        assert(batch_text(Seq::<Record>::empty()) =~= Seq::<char>::empty());
        assert(batch_text(seq![record]) =~= record_json(record) + seq!['\n']);
        let line = record_json(record);
        assert(batch_text(batch) =~= line + (seq!['\n'] + batch_text(rest)));
        lemma_at_split(s, i, line, seq!['\n'] + batch_text(rest));
        lemma_at_split(s, i + line.len(), seq!['\n'], batch_text(rest));
        lemma_at_first(s, i + line.len(), seq!['\n']);
        lemma_read_record(s, i, record);
        lemma_read_batch(s, i + line.len() + 1, rest);
    }
}

/// No two batches have the same text.
pub proof fn lemma_batch_text_injective(first: Seq<Record>, second: Seq<Record>)
    requires
        batch_text(first) == batch_text(second),
    ensures
        first == second,
{
    let s = batch_text(first);
    assert(s.subrange(0, s.len() as int) =~= s);
    lemma_read_batch(s, 0, first);
    lemma_read_batch(s, 0, second);
}

/// Reads the flag that stands at `i`.
fn parse_flag(s: &Vec<char>, i: usize) -> (found: Option<(bool, usize)>)
    ensures
        match found {
            Some((value, end)) => read_flag(s@, i as int) == Some((value, end as int)) && end
                <= s@.len(),
            None => read_flag(s@, i as int) is None,
        },
{
    match eat(s, i, "true") {
        Some(end) => Some((true, end)),
        None => match eat(s, i, "false") {
            Some(end) => Some((false, end)),
            None => None,
        },
    }
}

/// Reads the metadata whose JSON object stands at `i`.
fn parse_meta(s: &Vec<char>, i: usize) -> (found: Option<(FileMeta, usize)>)
    ensures
        match found {
            Some((meta, end)) => read_meta(s@, i as int) == Some((meta, end as int)) && end
                <= s@.len(),
            None => read_meta(s@, i as int) is None,
        },
{
    let c1 = match eat(s, i, "{\"original_size\":") {
        Some(p) => p,
        None => {
            return None;
        },
    };
    let (original_size, c2) = match read_u64(s, c1) {
        Some(found) => found,
        None => {
            return None;
        },
    };
    let c3 = match eat(s, c2, ",\"compressed_size\":") {
        Some(p) => p,
        None => {
            return None;
        },
    };
    let (compressed_size, c4) = match read_u64(s, c3) {
        Some(found) => found,
        None => {
            return None;
        },
    };
    let c5 = match eat(s, c4, ",\"records\":") {
        Some(p) => p,
        None => {
            return None;
        },
    };
    let (records, c6) = match read_u64(s, c5) {
        Some(found) => found,
        None => {
            return None;
        },
    };
    let c7 = match eat(s, c6, ",\"min_ts\":") {
        Some(p) => p,
        None => {
            return None;
        },
    };
    let (min_ts, c8) = match read_i64(s, c7) {
        Some(found) => found,
        None => {
            return None;
        },
    };
    let c9 = match eat(s, c8, ",\"max_ts\":") {
        Some(p) => p,
        None => {
            return None;
        },
    };
    let (max_ts, c10) = match read_i64(s, c9) {
        Some(found) => found,
        None => {
            return None;
        },
    };
    let c11 = match eat(s, c10, "}") {
        Some(p) => p,
        None => {
            return None;
        },
    };
    Some((FileMeta { min_ts, max_ts, records, original_size, compressed_size }, c11))
}

/// Reads the record whose JSON object stands at `i`.
fn parse_record(s: &Vec<char>, i: usize) -> (found: Option<(FileKey, usize)>)
    ensures
        match found {
            Some((record, end)) => read_record(s@, i as int) == Some((record@, end as int))
                && end <= s@.len(),
            None => read_record(s@, i as int) is None,
        },
{
    let c1 = match eat(s, i, "{\"key\":\"") {
        Some(p) => p,
        None => {
            return None;
        },
    };
    let (key, c2) = match read_text(s, c1) {
        Some(found) => found,
        None => {
            return None;
        },
    };
    let c3 = match eat(s, c2, ",\"meta\":") {
        Some(p) => p,
        None => {
            return None;
        },
    };
    let (meta, c4) = match parse_meta(s, c3) {
        Some(found) => found,
        None => {
            return None;
        },
    };
    let c5 = match eat(s, c4, ",\"deleted\":") {
        Some(p) => p,
        None => {
            return None;
        },
    };
    let (deleted, c6) = match parse_flag(s, c5) {
        Some(found) => found,
        None => {
            return None;
        },
    };
    let c7 = match eat(s, c6, "}") {
        Some(p) => p,
        None => {
            return None;
        },
    };
    Some((FileKey { key, meta, deleted }, c7))
}

/// Reads the records whose lines make up `s`.
fn parse_batch(s: &Vec<char>) -> (found: Option<Vec<FileKey>>)
    ensures
        match found {
            Some(batch) => read_batch(s@, 0) == Some(batch_view(batch@)),
            None => read_batch(s@, 0) is None,
        },
{
    let n: usize = s.len();
    let mut batch: Vec<FileKey> = Vec::new();
    let mut i: usize = 0;
    assert(join(batch_view(batch@), read_batch(s@, 0)) == read_batch(s@, 0)) by {
        if let Some(rest) = read_batch(s@, 0) {
            assert(batch_view(batch@) + rest =~= rest);
        }
    }
    while i < n
        invariant
            n == s@.len(),
            i <= n,
            read_batch(s@, 0) == join(batch_view(batch@), read_batch(s@, i as int)),
        decreases n - i,
    {
        let (record, end) = match parse_record(s, i) {
            Some(found) => found,
            None => {
                return None;
            },
        };
        if end < i || end >= n || s[end] != '\n' {
            return None;
        }
        proof {
            let later = read_batch(s@, end + 1);
            assert(read_batch(s@, i as int) == join(seq![record@], later));
            if let Some(rest) = later {
                assert(batch_view(batch@) + (seq![record@] + rest) =~= batch_view(
                    batch@.push(record),
                ) + rest);
            }
        }
        batch.push(record);
        i = end + 1;
    }
    assert(batch_view(batch@) + Seq::<Record>::empty() =~= batch_view(batch@));
    Some(batch)
}

/// Reads a batch from its text: one JSON object on each line, as
/// `encode_batch` writes them. `None` where `text` is the text of no batch.
pub fn decode_batch(text: &str) -> (decoded: Option<Vec<FileKey>>)
    ensures
        match decoded {
            Some(batch) => text@ == batch_text(batch_view(batch@)),
            None => forall|batch: Seq<Record>| text@ != batch_text(batch),
        },
{
    let chars = chars_of(text);
    let found = parse_batch(&chars);
    proof {
        assert forall|batch: Seq<Record>| text@ == batch_text(batch) implies read_batch(text@, 0)
            == Some(batch) by {
            assert(text@.subrange(0, text@.len() as int) =~= text@);
            lemma_read_batch(text@, 0, batch);
        }
    }
    match found {
        None => None,
        Some(batch) => {
            let again = encode_batch(batch.as_slice());
            if again == text.to_owned() {
                Some(batch)
            } else {
                None
            }
        },
    }
}

} // verus!
