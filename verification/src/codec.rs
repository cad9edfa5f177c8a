//! The text form of catalog records: one JSON object per line.
//!
//! A record reads
//! `{"key":"..","meta":{"original_size":..,"compressed_size":..,"records":..,"min_ts":..,"max_ts":..},"deleted":..}`
//! with no white space, and a batch is its records in order, each followed
//! by a line feed.

use crate::meta::{FileKey, FileMeta, Record, batch_view};
use vstd::prelude::*;
use vstd::string::*;

verus! {

/// `String::push` appends one character to the string.
pub assume_specification[ String::push ](text: &mut String, c: char)
    ensures
        final(text)@ == old(text)@.push(c),
;

/// The character for one digit below sixteen, in lower case.
pub open spec fn digit(d: int) -> char {
    if d == 0 {
        '0'
    } else if d == 1 {
        '1'
    } else if d == 2 {
        '2'
    } else if d == 3 {
        '3'
    } else if d == 4 {
        '4'
    } else if d == 5 {
        '5'
    } else if d == 6 {
        '6'
    } else if d == 7 {
        '7'
    } else if d == 8 {
        '8'
    } else if d == 9 {
        '9'
    } else if d == 10 {
        'a'
    } else if d == 11 {
        'b'
    } else if d == 12 {
        'c'
    } else if d == 13 {
        'd'
    } else if d == 14 {
        'e'
    } else {
        'f'
    }
}

/// The decimal digits of `n`, most significant first, without leading zeros.
pub open spec fn decimal(n: nat) -> Seq<char>
    decreases n,
{
    if n < 10 {
        seq![digit(n as int)]
    } else {
        decimal(n / 10).push(digit((n % 10) as int))
    }
}

/// The decimal form of a signed number: a minus sign before a negative one.
pub open spec fn signed_decimal(n: int) -> Seq<char> {
    if n < 0 {
        seq!['-'] + decimal((-n) as nat)
    } else {
        decimal(n as nat)
    }
}

/// How one character stands inside a JSON string: the quote, the backslash
/// and the control characters are escaped, every other character stands for
/// itself.
pub open spec fn escape_char(c: char) -> Seq<char> {
    if c == '"' {
        seq!['\\', '"']
    } else if c == '\\' {
        seq!['\\', '\\']
    } else if c == '\n' {
        seq!['\\', 'n']
    } else if c == '\r' {
        seq!['\\', 'r']
    } else if c == '\t' {
        seq!['\\', 't']
    } else if c == '\u{8}' {
        seq!['\\', 'b']
    } else if c == '\u{c}' {
        seq!['\\', 'f']
    } else if (c as u32) < 0x20 {
        seq!['\\', 'u', '0', '0', digit((c as u32) as int / 16), digit((c as u32) as int % 16)]
    } else {
        seq![c]
    }
}

/// The characters of `s`, each escaped.
pub open spec fn escape(s: Seq<char>) -> Seq<char>
    decreases s.len(),
{
    if s.len() == 0 {
        Seq::empty()
    } else {
        escape(s.drop_last()) + escape_char(s.last())
    }
}

/// `s` as a JSON string.
pub open spec fn quoted(s: Seq<char>) -> Seq<char> {
    seq!['"'] + escape(s) + seq!['"']
}

/// The JSON form of a `true` or `false`.
pub open spec fn flag(b: bool) -> Seq<char> {
    if b {
        "true"@
    } else {
        "false"@
    }
}

/// The JSON object for a segment's metadata.
pub open spec fn meta_json(meta: FileMeta) -> Seq<char> {
    "{\"original_size\":"@ + decimal(meta.original_size as nat) + ",\"compressed_size\":"@
        + decimal(meta.compressed_size as nat) + ",\"records\":"@ + decimal(meta.records as nat)
        + ",\"min_ts\":"@ + signed_decimal(meta.min_ts as int) + ",\"max_ts\":"@ + signed_decimal(
        meta.max_ts as int,
    ) + "}"@
}

/// The JSON object for one catalog record.
pub open spec fn record_json(record: Record) -> Seq<char> {
    "{\"key\":"@ + quoted(record.key) + ",\"meta\":"@ + meta_json(record.meta) + ",\"deleted\":"@
        + flag(record.deleted) + "}"@
}

/// The text of a batch: each record's JSON object followed by a line feed.
pub open spec fn batch_text(batch: Seq<Record>) -> Seq<char>
    decreases batch.len(),
{
    if batch.len() == 0 {
        Seq::empty()
    } else {
        batch_text(batch.drop_last()) + record_json(batch.last()) + seq!['\n']
    }
}

/// The character for a digit below sixteen.
fn digit_of(d: u8) -> (c: char)
    requires
        d < 16,
    ensures
        c == digit(d as int),
{
    if d == 0 {
        '0'
    } else if d == 1 {
        '1'
    } else if d == 2 {
        '2'
    } else if d == 3 {
        '3'
    } else if d == 4 {
        '4'
    } else if d == 5 {
        '5'
    } else if d == 6 {
        '6'
    } else if d == 7 {
        '7'
    } else if d == 8 {
        '8'
    } else if d == 9 {
        '9'
    } else if d == 10 {
        'a'
    } else if d == 11 {
        'b'
    } else if d == 12 {
        'c'
    } else if d == 13 {
        'd'
    } else if d == 14 {
        'e'
    } else {
        'f'
    }
}

/// Appends the decimal form of `n` to `out`.
pub fn write_decimal(out: &mut String, n: u64)
    ensures
        final(out)@ == old(out)@ + decimal(n as nat),
{
    let mut low: Vec<char> = Vec::new();
    let ghost mut tail: Seq<char> = Seq::empty();
    let mut m: u64 = n;
    while m >= 10
        invariant
            decimal(n as nat) == decimal(m as nat) + tail,
            low@.len() == tail.len(),
            forall|j: int| 0 <= j < low@.len() ==> low@[j] == tail[tail.len() - 1 - j],
        decreases m,
    {
        let c = digit_of((m % 10) as u8);
        proof {
            assert(decimal(m as nat) == decimal((m / 10) as nat).push(c));
            assert(decimal((m / 10) as nat).push(c) + tail == decimal((m / 10) as nat) + (seq![c]
                + tail));
            tail = seq![c] + tail;
        }
        low.push(c);
        m = m / 10;
    }
    let first = digit_of(m as u8);
    out.push(first);
    let count: usize = low.len();
    let mut k: usize = 0;
    while k < count
        invariant
            k <= count,
            count == low@.len(),
            low@.len() == tail.len(),
            forall|j: int| 0 <= j < low@.len() ==> low@[j] == tail[tail.len() - 1 - j],
            out@ == old(out)@ + seq![first] + tail.take(k as int),
        decreases count - k,
    {
        let c = low[count - 1 - k];
        out.push(c);
        proof {
            assert(tail.take(k + 1) == tail.take(k as int).push(c));
        }
        k = k + 1;
    }
    proof {
        assert(tail.take(count as int) == tail);
        assert(decimal(m as nat) == seq![first]);
        assert(old(out)@ + seq![first] + tail == old(out)@ + (seq![first] + tail));
    }
}

/// Appends the decimal form of the signed number `n` to `out`.
pub fn write_signed_decimal(out: &mut String, n: i64)
    ensures
        final(out)@ == old(out)@ + signed_decimal(n as int),
{
    if n < 0 {
        let magnitude: u64 = if n == i64::MIN {
            9223372036854775808u64
        } else {
            (-n) as u64
        };
        out.push('-');
        write_decimal(out, magnitude);
        proof {
            assert(old(out)@.push('-') + decimal(magnitude as nat) == old(out)@ + (seq!['-']
                + decimal(magnitude as nat)));
        }
    } else {
        write_decimal(out, n as u64);
    }
}

/// Appends `c`, escaped for a JSON string, to `out`.
pub fn write_escaped_char(out: &mut String, c: char)
    ensures
        final(out)@ == old(out)@ + escape_char(c),
{
    if c == '"' {
        out.push('\\');
        out.push('"');
    } else if c == '\\' {
        out.push('\\');
        out.push('\\');
    } else if c == '\n' {
        out.push('\\');
        out.push('n');
    } else if c == '\r' {
        out.push('\\');
        out.push('r');
    } else if c == '\t' {
        out.push('\\');
        out.push('t');
    } else if c == '\u{8}' {
        out.push('\\');
        out.push('b');
    } else if c == '\u{c}' {
        out.push('\\');
        out.push('f');
    } else if (c as u32) < 0x20 {
        let code: u32 = c as u32;
        out.push('\\');
        out.push('u');
        out.push('0');
        out.push('0');
        out.push(digit_of((code / 16) as u8));
        out.push(digit_of((code % 16) as u8));
    } else {
        out.push(c);
    }
    assert(out@ =~= old(out)@ + escape_char(c));
}

/// Appends `text` as a JSON string to `out`.
pub fn write_quoted(out: &mut String, text: &str)
    ensures
        final(out)@ == old(out)@ + quoted(text@),
{
    let chars = crate::text::chars_of(text);
    out.push('"');
    let count: usize = chars.len();
    let mut i: usize = 0;
    while i < count
        invariant
            i <= count,
            count == chars@.len(),
            chars@ == text@,
            out@ == old(out)@ + seq!['"'] + escape(text@.take(i as int)),
        decreases count - i,
    {
        write_escaped_char(out, chars[i]);
        proof {
            let next = text@.take(i + 1);
            assert(next.drop_last() == text@.take(i as int));
            assert(next.last() == chars@[i as int]);
            assert(old(out)@ + seq!['"'] + escape(text@.take(i as int)) + escape_char(chars@[i as int])
                == old(out)@ + seq!['"'] + escape(next));
        }
        i = i + 1;
    }
    out.push('"');
    proof {
        assert(text@.take(count as int) == text@);
        assert(out@ =~= old(out)@ + quoted(text@));
    }
}

/// Appends the JSON object for `meta` to `out`.
pub fn write_meta(out: &mut String, meta: &FileMeta)
    ensures
        final(out)@ == old(out)@ + meta_json(*meta),
{
    out.append("{\"original_size\":");
    write_decimal(out, meta.original_size);
    out.append(",\"compressed_size\":");
    write_decimal(out, meta.compressed_size);
    out.append(",\"records\":");
    write_decimal(out, meta.records);
    out.append(",\"min_ts\":");
    write_signed_decimal(out, meta.min_ts);
    out.append(",\"max_ts\":");
    write_signed_decimal(out, meta.max_ts);
    out.append("}");
    assert(out@ =~= old(out)@ + meta_json(*meta));
}

/// Appends the JSON object for `record` to `out`.
pub fn write_record(out: &mut String, record: &FileKey)
    ensures
        final(out)@ == old(out)@ + record_json(record@),
{
    out.append("{\"key\":");
    write_quoted(out, record.key.as_str());
    out.append(",\"meta\":");
    write_meta(out, &record.meta);
    out.append(",\"deleted\":");
    if record.deleted {
        out.append("true");
    } else {
        out.append("false");
    }
    out.append("}");
    assert(out@ =~= old(out)@ + record_json(record@));
}

/// The JSON object for `record`.
pub fn encode_record(record: &FileKey) -> (text: String)
    ensures
        text@ == record_json(record@),
{
    let mut text = String::new();
    write_record(&mut text, record);
    assert(Seq::<char>::empty() + record_json(record@) == record_json(record@));
    text
}

/// The text of `batch`: one line for each record, in order.
pub fn encode_batch(batch: &[FileKey]) -> (text: String)
    ensures
        text@ == batch_text(batch_view(batch@)),
{
    let mut text = String::new();
    let count: usize = batch.len();
    let mut i: usize = 0;
    while i < count
        invariant
            i <= count,
            count == batch@.len(),
            text@ == batch_text(batch_view(batch@.take(i as int))),
        decreases count - i,
    {
        write_record(&mut text, &batch[i]);
        text.push('\n');
        proof {
            let next = batch_view(batch@.take(i + 1));
            assert(next.drop_last() == batch_view(batch@.take(i as int)));
            assert(next.last() == batch@[i as int]@);
        }
        i = i + 1;
    }
    assert(batch@.take(count as int) == batch@);
    text
}

} // verus!
