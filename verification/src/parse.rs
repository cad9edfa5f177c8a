//! Reading the text form of catalog records back.
//!
//! The reader takes the text apart from left to right. What it finds is
//! then written again and held against the text, so that only the one text
//! of a batch is taken for the batch.

use crate::codec::{decimal, digit, escape, escape_char, signed_decimal};
use vstd::prelude::*;

verus! {

/// Whether `piece` stands in `s` at `i`.
pub open spec fn at(s: Seq<char>, i: int, piece: Seq<char>) -> bool {
    0 <= i && i + piece.len() <= s.len() && s.subrange(i, i + piece.len()) == piece
}

/// Where two pieces stand one after the other, each of them stands.
pub proof fn lemma_at_split(s: Seq<char>, i: int, first: Seq<char>, second: Seq<char>)
    requires
        at(s, i, first + second),
    ensures
        at(s, i, first),
        at(s, i + first.len(), second),
{
    let all = first + second;
    assert(s.subrange(i, i + first.len()) =~= all.subrange(0, first.len() as int));
    assert(all.subrange(0, first.len() as int) =~= first);
    assert(s.subrange(i + first.len(), i + first.len() + second.len()) =~= all.subrange(
        first.len() as int,
        all.len() as int,
    ));
    assert(all.subrange(first.len() as int, all.len() as int) =~= second);
}

/// Whether `c` is a decimal digit.
pub open spec fn is_digit(c: char) -> bool {
    48 <= c as u32 <= 57
}

/// The number that a decimal digit stands for.
pub open spec fn digit_value(c: char) -> nat {
    (c as u32 - 48) as nat
}

/// The number that a sequence of decimal digits stands for.
pub open spec fn number(digits: Seq<char>) -> nat
    decreases digits.len(),
{
    if digits.len() == 0 {
        0
    } else {
        number(digits.drop_last()) * 10 + digit_value(digits.last())
    }
}

/// The first place from `i` on where no digit stands.
pub open spec fn digits_end(s: Seq<char>, i: int) -> int
    decreases s.len() - i,
{
    if 0 <= i < s.len() && is_digit(s[i]) {
        digits_end(s, i + 1)
    } else {
        i
    }
}

/// The number that stands at `i`, and where it ends; `None` where no digit
/// stands at `i`.
pub open spec fn read_nat(s: Seq<char>, i: int) -> Option<(nat, int)> {
    let end = digits_end(s, i);
    if 0 <= i < end {
        Some((number(s.subrange(i, end)), end))
    } else {
        None
    }
}

/// The signed number that stands at `i`, and where it ends.
pub open spec fn read_int(s: Seq<char>, i: int) -> Option<(int, int)> {
    if 0 <= i < s.len() && s[i] == '-' {
        match read_nat(s, i + 1) {
            Some((n, end)) => Some((-(n as int), end)),
            None => None,
        }
    } else {
        match read_nat(s, i) {
            Some((n, end)) => Some((n as int, end)),
            None => None,
        }
    }
}

/// `digits_end` is `end` where digits stand from `i` up to `end` and none
/// stands at `end`.
pub proof fn lemma_digits_end(s: Seq<char>, i: int, end: int)
    requires
        0 <= i <= end <= s.len(),
        forall|k: int| i <= k < end ==> is_digit(s[k]),
        end == s.len() || !is_digit(s[end]),
    ensures
        digits_end(s, i) == end,
    decreases end - i,
{
    if i < end {
        lemma_digits_end(s, i + 1, end);
    }
}

/// The number of a longer run of digits is no less than that of its start.
pub proof fn lemma_number_grows(digits: Seq<char>, n: int)
    requires
        0 <= n <= digits.len(),
    ensures
        number(digits.take(n)) <= number(digits),
    decreases digits.len(),
{
    if n < digits.len() {
        assert(digits.drop_last().take(n) == digits.take(n));
        lemma_number_grows(digits.drop_last(), n);
    } else {
        assert(digits.take(n) == digits);
    }
}

/// The decimal form of a number is made of digits and stands for the number.
pub proof fn lemma_decimal(n: nat)
    ensures
        decimal(n).len() >= 1,
        forall|k: int| 0 <= k < decimal(n).len() ==> is_digit(#[trigger] decimal(n)[k]),
        number(decimal(n)) == n,
    decreases n,
{
    if n < 10 {
        let d = decimal(n);
        assert(d.drop_last() =~= Seq::<char>::empty());
        assert(number(d.drop_last()) == 0);
        assert(d.last() == digit(n as int));
    } else {
        lemma_decimal(n / 10);
        let d = decimal(n);
        let front = decimal(n / 10);
        assert(d.drop_last() =~= front);
        assert(d.last() == digit((n % 10) as int));
        assert forall|k: int| 0 <= k < d.len() implies is_digit(#[trigger] d[k]) by {
            if k < front.len() {
                assert(d[k] == front[k]);
            }
        }
    }
}

/// The decimal form of a number, where no digit follows it, is read as the
/// number.
pub proof fn lemma_read_decimal(s: Seq<char>, i: int, n: nat)
    requires
        at(s, i, decimal(n)),
        i + decimal(n).len() == s.len() || !is_digit(s[i + decimal(n).len()]),
    ensures
        read_nat(s, i) == Some((n, i + decimal(n).len())),
{
    lemma_decimal(n);
    let end = i + decimal(n).len();
    assert forall|k: int| i <= k < end implies is_digit(s[k]) by {
        assert(s[k] == s.subrange(i, end)[k - i]);
    }
    lemma_digits_end(s, i, end);
}

/// The decimal form of a signed number, where no digit follows it, is read
/// as the number.
pub proof fn lemma_read_signed_decimal(s: Seq<char>, i: int, n: int)
    requires
        at(s, i, signed_decimal(n)),
        i + signed_decimal(n).len() == s.len() || !is_digit(s[i + signed_decimal(n).len()]),
    ensures
        read_int(s, i) == Some((n, i + signed_decimal(n).len())),
{
    if n < 0 {
        let rest = decimal((-n) as nat);
        lemma_at_split(s, i, seq!['-'], rest);
        assert(s[i] == s.subrange(i, i + 1)[0]);
        lemma_read_decimal(s, i + 1, (-n) as nat);
    } else {
        lemma_decimal(n as nat);
        let d = decimal(n as nat);
        assert(s[i] == s.subrange(i, i + d.len())[0]);
        assert(is_digit(d[0]));
        lemma_read_decimal(s, i, n as nat);
    }
}

/// What `read_u64` returns where `read_nat` finds `found`.
pub open spec fn fit_u64(found: Option<(nat, int)>) -> Option<(u64, int)> {
    match found {
        Some((n, end)) => if n <= u64::MAX {
            Some((n as u64, end))
        } else {
            None
        },
        None => None,
    }
}

/// What `read_i64` returns where `read_int` finds `found`.
pub open spec fn fit_i64(found: Option<(int, int)>) -> Option<(i64, int)> {
    match found {
        Some((n, end)) => if i64::MIN <= n <= i64::MAX {
            Some((n as i64, end))
        } else {
            None
        },
        None => None,
    }
}

/// Reads the number that stands at `i`: the value and where it ends.
/// `None` where no digit stands at `i` or the number does not fit.
pub fn read_u64(s: &Vec<char>, i: usize) -> (found: Option<(u64, usize)>)
    ensures
        match found {
            Some((value, end)) => fit_u64(read_nat(s@, i as int)) == Some((value, end as int))
                && end <= s@.len(),
            None => fit_u64(read_nat(s@, i as int)) is None,
        },
{
    let n: usize = s.len();
    if i >= n {
        return None;
    }
    let mut end: usize = i;
    while end < n && 48 <= s[end] as u32 && s[end] as u32 <= 57
        invariant
            n == s@.len(),
            i <= end <= n,
            forall|k: int| i <= k < end ==> is_digit(s@[k]),
        decreases n - end,
    {
        end = end + 1;
    }
    proof {
        lemma_digits_end(s@, i as int, end as int);
    }
    if end == i {
        return None;
    }
    let ghost digits = s@.subrange(i as int, end as int);
    let mut acc: u64 = 0;
    let mut k: usize = i;
    assert(s@.subrange(i as int, i as int) =~= Seq::<char>::empty());
    while k < end
        invariant
            i <= k <= end <= s@.len(),
            i < end,
            digits_end(s@, i as int) == end,
            forall|j: int| i <= j < end ==> is_digit(s@[j]),
            digits == s@.subrange(i as int, end as int),
            acc == number(s@.subrange(i as int, k as int)),
        decreases end - k,
    {
        let d: u64 = (s[k] as u32 - 48) as u64;
        proof {
            let next = s@.subrange(i as int, k + 1);
            assert(next.drop_last() =~= s@.subrange(i as int, k as int));
            assert(next.last() == s@[k as int]);
            assert(number(next) == acc * 10 + d);
            assert(digits.take(k + 1 - i) =~= next);
            lemma_number_grows(digits, k + 1 - i);
        }
        let tens = match acc.checked_mul(10) {
            Some(tens) => tens,
            None => {
                return None;
            },
        };
        acc = match tens.checked_add(d) {
            Some(sum) => sum,
            None => {
                return None;
            },
        };
        k = k + 1;
    }
    Some((acc, end))
}

/// Reads the signed number that stands at `i`: the value and where it
/// ends. `None` where no number stands at `i` or it does not fit.
pub fn read_i64(s: &Vec<char>, i: usize) -> (found: Option<(i64, usize)>)
    ensures
        match found {
            Some((value, end)) => fit_i64(read_int(s@, i as int)) == Some((value, end as int))
                && end <= s@.len(),
            None => fit_i64(read_int(s@, i as int)) is None,
        },
{
    if i < s.len() && s[i] == '-' {
        match read_u64(s, i + 1) {
            Some((magnitude, end)) => {
                if magnitude > 9223372036854775808u64 {
                    None
                } else if magnitude == 9223372036854775808u64 {
                    Some((i64::MIN, end))
                } else {
                    Some((-(magnitude as i64), end))
                }
            },
            None => None,
        }
    } else {
        match read_u64(s, i) {
            Some((magnitude, end)) => {
                if magnitude > 9223372036854775807u64 {
                    None
                } else {
                    Some((magnitude as i64, end))
                }
            },
            None => None,
        }
    }
}

/// The number that a digit of base sixteen, in lower case, stands for.
pub open spec fn hex_value(c: char) -> Option<nat> {
    if is_digit(c) {
        Some(digit_value(c))
    } else if 97 <= c as u32 <= 102 {
        Some((c as u32 - 87) as nat)
    } else {
        None
    }
}

/// The character that stands at `i` inside a JSON string, escaped or not,
/// and where what follows it begins. `None` at a quote, at a control
/// character and at an escape that is not known.
pub open spec fn read_char(s: Seq<char>, i: int) -> Option<(char, int)> {
    if !(0 <= i < s.len()) {
        None
    } else if s[i] == '\\' {
        if i + 1 >= s.len() {
            None
        } else if s[i + 1] == '"' {
            Some(('"', i + 2))
        } else if s[i + 1] == '\\' {
            Some(('\\', i + 2))
        } else if s[i + 1] == 'n' {
            Some(('\n', i + 2))
        } else if s[i + 1] == 'r' {
            Some(('\r', i + 2))
        } else if s[i + 1] == 't' {
            Some(('\t', i + 2))
        } else if s[i + 1] == 'b' {
            Some(('\u{8}', i + 2))
        } else if s[i + 1] == 'f' {
            Some(('\u{c}', i + 2))
        } else if s[i + 1] == 'u' && i + 5 < s.len() && s[i + 2] == '0' && s[i + 3] == '0'
            && hex_value(s[i + 4]) is Some && hex_value(s[i + 5]) is Some {
            Some(
                (
                    ((hex_value(s[i + 4])->Some_0 * 16 + hex_value(s[i + 5])->Some_0) as u8) as char,
                    i + 6,
                ),
            )
        } else {
            None
        }
    } else if s[i] == '"' || (s[i] as u32) < 0x20 {
        None
    } else {
        Some((s[i], i + 1))
    }
}

/// `found` with `done` put before its text.
pub open spec fn prepend(done: Seq<char>, found: Option<(Seq<char>, int)>) -> Option<
    (Seq<char>, int),
> {
    match found {
        Some((rest, end)) => Some((done + rest, end)),
        None => None,
    }
}

/// The text of the JSON string whose first character stands at `i`, after
/// the opening quote, and where what follows the closing quote begins.
pub open spec fn read_string(s: Seq<char>, i: int) -> Option<(Seq<char>, int)>
    decreases s.len() - i,
{
    if !(0 <= i < s.len()) {
        None
    } else if s[i] == '"' {
        Some((Seq::empty(), i + 1))
    } else {
        match read_char(s, i) {
            Some((c, next)) => if next <= i {
                None
            } else {
                prepend(seq![c], read_string(s, next))
            },
            None => None,
        }
    }
}

/// Escaping a text piece by piece gives the same as escaping it whole.
pub proof fn lemma_escape_concat(first: Seq<char>, second: Seq<char>)
    ensures
        escape(first + second) == escape(first) + escape(second),
    decreases second.len(),
{
    if second.len() == 0 {
        assert(first + second =~= first);
        assert(escape(first) + escape(second) =~= escape(first));
    } else {
        let all = first + second;
        assert(all.drop_last() =~= first + second.drop_last());
        assert(all.last() == second.last());
        lemma_escape_concat(first, second.drop_last());
        assert(escape(first) + escape(second.drop_last()) + escape_char(second.last()) =~= escape(
            first,
        ) + (escape(second.drop_last()) + escape_char(second.last())));
    }
}

/// An escaped character is read as the character.
pub proof fn lemma_read_escaped_char(s: Seq<char>, i: int, c: char)
    requires
        at(s, i, escape_char(c)),
    ensures
        read_char(s, i) == Some((c, i + escape_char(c).len())),
        s[i] != '"',
{
    let e = escape_char(c);
    let w = e.len() as int;
    assert forall|k: int| 0 <= k < w implies s[i + k] == e[k] by {
        assert(s.subrange(i, i + w)[k] == s[i + k]);
    }
    assert(s[i] == e[0]);
    if w == 2 {
        assert(s[i + 1] == e[1]);
    } else if w == 6 {
        assert(s[i + 1] == e[1]);
        assert(s[i + 2] == e[2]);
        assert(s[i + 3] == e[3]);
        assert(s[i + 4] == e[4]);
        assert(s[i + 5] == e[5]);
        let v = (c as u32) as int;
        assert(0 <= v < 32);
        assert(hex_value(digit(v / 16)) == Some((v / 16) as nat));
        assert(hex_value(digit(v % 16)) == Some((v % 16) as nat));
        assert((v / 16) * 16 + v % 16 == v);
    }
}

/// An escaped text up to its closing quote is read as the text.
pub proof fn lemma_read_escaped(s: Seq<char>, i: int, text: Seq<char>)
    requires
        at(s, i, escape(text) + seq!['"']),
    ensures
        read_string(s, i) == Some((text, i + escape(text).len() + 1)),
    decreases text.len(),
{
    if text.len() == 0 {
        assert(escape(text) + seq!['"'] =~= seq!['"']);
        assert(s[i] == s.subrange(i, i + 1)[0]);
    } else {
        let c = text[0];
        let rest = text.skip(1);
        assert(text =~= seq![c] + rest);
        lemma_escape_concat(seq![c], rest);
        assert(seq![c].drop_last() =~= Seq::<char>::empty());
        assert(escape(Seq::<char>::empty()) =~= Seq::<char>::empty());
        assert(seq![c].last() == c);
        assert(escape(seq![c]) =~= escape(seq![c].drop_last()) + escape_char(c));
        assert(escape(seq![c]) =~= escape_char(c));
        assert(escape(text) + seq!['"'] =~= escape_char(c) + (escape(rest) + seq!['"']));
        lemma_at_split(s, i, escape_char(c), escape(rest) + seq!['"']);
        lemma_read_escaped_char(s, i, c);
        lemma_read_escaped(s, i + escape_char(c).len(), rest);
        assert(seq![c] + rest =~= text);
    }
}

/// The number that a digit of base sixteen, in lower case, stands for.
fn hex_of(c: char) -> (value: Option<u8>)
    ensures
        match value {
            Some(v) => hex_value(c) == Some(v as nat),
            None => hex_value(c) is None,
        },
{
    let code: u32 = c as u32;
    if 48 <= code && code <= 57 {
        Some((code - 48) as u8)
    } else if 97 <= code && code <= 102 {
        Some((code - 87) as u8)
    } else {
        None
    }
}

/// Reads the character that stands at `i` inside a JSON string, escaped or
/// not, and says where what follows it begins.
pub fn read_one(s: &Vec<char>, i: usize) -> (found: Option<(char, usize)>)
    ensures
        match found {
            Some((c, next)) => read_char(s@, i as int) == Some((c, next as int)) && i < next
                <= s@.len(),
            None => read_char(s@, i as int) is None,
        },
{
    let n: usize = s.len();
    if i >= n {
        return None;
    }
    let c = s[i];
    if c == '\\' {
        if i + 1 >= n {
            return None;
        }
        let e = s[i + 1];
        if e == '"' {
            Some(('"', i + 2))
        } else if e == '\\' {
            Some(('\\', i + 2))
        } else if e == 'n' {
            Some(('\n', i + 2))
        } else if e == 'r' {
            Some(('\r', i + 2))
        } else if e == 't' {
            Some(('\t', i + 2))
        } else if e == 'b' {
            Some(('\u{8}', i + 2))
        } else if e == 'f' {
            Some(('\u{c}', i + 2))
        } else if e == 'u' && n - i > 5 && s[i + 2] == '0' && s[i + 3] == '0' {
            match hex_of(s[i + 4]) {
                Some(high) => match hex_of(s[i + 5]) {
                    Some(low) => {
                        let code: u8 = high * 16 + low;
                        Some((code as char, i + 6))
                    },
                    None => None,
                },
                None => None,
            }
        } else {
            None
        }
    } else if c == '"' || (c as u32) < 0x20 {
        None
    } else {
        Some((c, i + 1))
    }
}

/// Reads the text of the JSON string whose first character stands at `i`,
/// after the opening quote, and says where what follows the closing quote
/// begins.
pub fn read_text(s: &Vec<char>, i: usize) -> (found: Option<(String, usize)>)
    ensures
        match found {
            Some((text, end)) => read_string(s@, i as int) == Some((text@, end as int)) && end
                <= s@.len(),
            None => read_string(s@, i as int) is None,
        },
{
    let n: usize = s.len();
    if i >= n {
        return None;
    }
    let mut text = String::new();
    let mut k: usize = i;
    assert(prepend(Seq::<char>::empty(), read_string(s@, i as int)) == read_string(s@, i as int))
        by {
        if let Some((rest, end)) = read_string(s@, i as int) {
            assert(Seq::<char>::empty() + rest =~= rest);
        }
    }
    while k < n
        invariant
            n == s@.len(),
            i <= k <= n,
            read_string(s@, i as int) == prepend(text@, read_string(s@, k as int)),
        decreases n - k,
    {
        if s[k] == '"' {
            assert(text@ + Seq::<char>::empty() =~= text@);
            return Some((text, k + 1));
        }
        match read_one(s, k) {
            None => {
                return None;
            },
            Some((c, next)) => {
                proof {
                    let later = read_string(s@, next as int);
                    assert(read_string(s@, k as int) == prepend(seq![c], later));
                    if let Some((rest, end)) = later {
                        assert(text@ + (seq![c] + rest) =~= text@.push(c) + rest);
                    }
                }
                text.push(c);
                k = next;
            },
        }
    }
    None
}

/// Where the text after `piece` begins, where `piece` stands at `i`.
pub open spec fn eat_at(s: Seq<char>, i: int, piece: Seq<char>) -> Option<int> {
    if at(s, i, piece) {
        Some(i + piece.len())
    } else {
        None
    }
}

/// Tells whether `piece` stands at `i`, and where the text after it begins.
pub fn eat(s: &Vec<char>, i: usize, piece: &str) -> (found: Option<usize>)
    ensures
        match found {
            Some(end) => eat_at(s@, i as int, piece@) == Some(end as int) && end <= s@.len(),
            None => eat_at(s@, i as int, piece@) is None,
        },
{
    let wanted = crate::text::chars_of(piece);
    let count: usize = wanted.len();
    if i > s.len() || s.len() - i < count {
        return None;
    }
    let mut k: usize = 0;
    while k < count
        invariant
            k <= count,
            count == wanted@.len(),
            wanted@ == piece@,
            i + count <= s@.len(),
            s@.len() <= usize::MAX,
            forall|j: int| 0 <= j < k ==> s@[i + j] == wanted@[j],
        decreases count - k,
    {
        if s[i + k] != wanted[k] {
            assert(s@.subrange(i as int, i + count)[k as int] == s@[i + k]);
            return None;
        }
        k = k + 1;
    }
    assert(s@.subrange(i as int, i + count) =~= piece@);
    Some(i + count)
}

} // verus!
