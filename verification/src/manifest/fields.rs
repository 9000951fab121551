//! Lines, fields and numbers of a manifest.

use vstd::prelude::*;
use vstd::string::*;
use vstd::utf8::{decode_utf8, encode_utf8, valid_utf8};

use crate::utils::text::{char_digit, digit_char, digit_str, utf8_text};

verus! {

/// The first position from `from` on where `c` stands; the length if there is none.
pub open spec fn find_from(s: Seq<char>, c: char, from: int) -> int
    decreases s.len() - from,
{
    if from >= s.len() {
        s.len() as int
    } else if s[from] == c {
        from
    } else {
        find_from(s, c, from + 1)
    }
}

/// The lines of the text from `from` on. A line ends at a line feed, together
/// with the carriage return before it; the last line needs no end.
pub open spec fn lines_from(s: Seq<char>, from: int) -> Seq<Seq<char>>
    decreases s.len() - from,
{
    if from < 0 || from >= s.len() {
        Seq::empty()
    } else {
        let end = find_from(s, '\n', from);
        if end >= s.len() {
            seq![s.subrange(from, s.len() as int)]
        } else if end < from {
            Seq::empty()
        } else {
            seq![without_return(s.subrange(from, end))] + lines_from(s, end + 1)
        }
    }
}

/// The text without a carriage return at its end.
pub open spec fn without_return(s: Seq<char>) -> Seq<char> {
    if s.len() > 0 && s.last() == '\r' {
        s.drop_last()
    } else {
        s
    }
}

/// The lines of a text.
pub open spec fn lines_of(s: Seq<char>) -> Seq<Seq<char>> {
    lines_from(s, 0)
}

/// The parts of a text from `from` on, separated by `c`.
pub open spec fn parts_from(s: Seq<char>, c: char, from: int) -> Seq<Seq<char>>
    decreases s.len() - from,
{
    let end = find_from(s, c, from);
    if from < 0 || from > s.len() || end >= s.len() || end < from {
        seq![s.subrange(from, s.len() as int)]
    } else {
        seq![s.subrange(from, end)] + parts_from(s, c, end + 1)
    }
}

/// The parts of a text, separated by `c`.
pub open spec fn parts_of(s: Seq<char>, c: char) -> Seq<Seq<char>> {
    parts_from(s, c, 0)
}

/// The number that the digits stand for; `None` where one is no digit.
pub open spec fn digits_value(s: Seq<char>, radix: int) -> Option<int>
    decreases s.len(),
{
    if s.len() == 0 {
        Some(0)
    } else {
        match (digits_value(s.drop_last(), radix), char_digit(s.last(), radix)) {
            (Some(front), Some(d)) => Some(front * radix + d),
            _ => None,
        }
    }
}

/// The digits of a numeral: a plus sign may stand before them.
pub open spec fn unsigned(s: Seq<char>) -> Seq<char> {
    if s.len() > 1 && s[0] == '+' {
        s.drop_first()
    } else {
        s
    }
}

/// The number up to `limit` that a numeral stands for.
pub open spec fn number_in(s: Seq<char>, radix: int, limit: int) -> Option<int> {
    if s.len() == 0 {
        None
    } else {
        match digits_value(unsigned(s), radix) {
            Some(v) => if v <= limit {
                Some(v)
            } else {
                None
            },
            None => None,
        }
    }
}

/// Why a numeral stands for no number.
#[derive(Debug, Clone, Copy, PartialEq, Eq, Structural)]
pub enum NumeralFault {
    Empty,
    InvalidDigit,
    TooLarge,
}

/// The first fault among the first `count` digits.
pub open spec fn digit_fault(digits: Seq<char>, radix: int, limit: int, count: nat) -> Option<
    NumeralFault,
>
    decreases count,
{
    if count == 0 {
        None
    } else {
        match digit_fault(digits, radix, limit, (count - 1) as nat) {
            Some(fault) => Some(fault),
            None => if char_digit(digits[count - 1], radix) is None {
                Some(NumeralFault::InvalidDigit)
            } else if digits_value(digits.take(count as int), radix)->Some_0 > limit {
                Some(NumeralFault::TooLarge)
            } else {
                None
            },
        }
    }
}

/// Why a numeral stands for no number up to `limit`.
pub open spec fn numeral_fault(s: Seq<char>, radix: int, limit: int) -> Option<NumeralFault> {
    if s.len() == 0 {
        Some(NumeralFault::Empty)
    } else {
        digit_fault(unsigned(s), radix, limit, unsigned(s).len())
    }
}

/// A numeral stands for a number up to `limit` just where it has no fault.
pub proof fn law_faultless_numerals_are_numbers(s: Seq<char>, radix: int, limit: int)
    requires
        radix >= 1,
        limit >= 0,
    ensures
        numeral_fault(s, radix, limit) is None <==> number_in(s, radix, limit) is Some,
{
    if s.len() > 0 {
        let digits = unsigned(s);
        lemma_faultless(digits, radix, limit, digits.len());
        assert(digits.take(digits.len() as int) =~= digits);
    }
}

pub proof fn lemma_faultless(digits: Seq<char>, radix: int, limit: int, count: nat)
    requires
        radix >= 1,
        limit >= 0,
        count <= digits.len(),
    ensures
        digit_fault(digits, radix, limit, count) is None <==> (digits_value(
            digits.take(count as int),
            radix,
        ) matches Some(v) && v <= limit),
    decreases count,
{
    assert(digits.take(0) =~= Seq::empty());
    if count > 0 {
        lemma_faultless(digits, radix, limit, (count - 1) as nat);
        let front = digits.take(count as int);
        assert(front.drop_last() =~= digits.take(count - 1));
        assert(front.take(count - 1) =~= digits.take(count - 1));
        lemma_digits_prefix(front, count - 1, radix);
    }
}

/// The first fault stays the first.
proof fn lemma_fault_stays(digits: Seq<char>, radix: int, limit: int, few: nat, many: nat)
    requires
        few <= many,
        digit_fault(digits, radix, limit, few) is Some,
    ensures
        digit_fault(digits, radix, limit, many) == digit_fault(digits, radix, limit, few),
    decreases many,
{
    if few < many {
        lemma_fault_stays(digits, radix, limit, few, (many - 1) as nat);
    }
}

/// The byte that a pair of hexadecimal characters stands for.
pub open spec fn hex_pair(a: char, b: char) -> Option<int> {
    number_in(seq![a, b], 16, 255)
}

/// The bytes that the first `count` pairs of hexadecimal characters stand for.
pub open spec fn hex_bytes(s: Seq<char>, count: nat) -> Option<Seq<u8>>
    decreases count,
{
    if count == 0 {
        Some(Seq::empty())
    } else {
        match (hex_bytes(s, (count - 1) as nat), hex_pair(s[2 * count - 2], s[2 * count - 1])) {
            (Some(front), Some(v)) => Some(front.push(v as u8)),
            _ => None,
        }
    }
}

/// The text that an encoded field stands for.
pub open spec fn decoded(s: Seq<char>) -> Result<Seq<char>, Seq<char>> {
    if s.len() % 2 != 0 {
        Err("invalid hex string in CPK manifest"@)
    } else {
        match hex_bytes(s, s.len() / 2) {
            None => Err("invalid hex string in CPK manifest"@),
            Some(bytes) => if valid_utf8(bytes) {
                Ok(decode_utf8(bytes))
            } else {
                Err("manifest string is not UTF-8"@)
            },
        }
    }
}

/// The two hexadecimal characters of a byte.
pub open spec fn byte_hex(b: u8) -> Seq<char> {
    seq![digit_char((b / 16) as int), digit_char((b % 16) as int)]
}

/// The hexadecimal characters of the first `count` bytes.
pub open spec fn hex_of(bytes: Seq<u8>, count: nat) -> Seq<char>
    decreases count,
{
    if count == 0 {
        Seq::empty()
    } else {
        hex_of(bytes, (count - 1) as nat) + byte_hex(bytes[count - 1])
    }
}

/// A text as an encoded field.
pub open spec fn encoded(text: Seq<char>) -> Seq<char> {
    hex_of(encode_utf8(text), encode_utf8(text).len())
}

pub proof fn lemma_find_from(s: Seq<char>, c: char, from: int)
    requires
        0 <= from <= s.len(),
    ensures
        from <= find_from(s, c, from) <= s.len(),
        find_from(s, c, from) < s.len() ==> s[find_from(s, c, from)] == c,
        forall|i: int| from <= i < find_from(s, c, from) ==> #[trigger] s[i] != c,
    decreases s.len() - from,
{
    if from < s.len() && s[from] != c {
        lemma_find_from(s, c, from + 1);
    }
}

/// The separator stands in no part.
pub proof fn lemma_parts_lack(s: Seq<char>, c: char, from: int, i: int)
    requires
        0 <= from <= s.len(),
        0 <= i < parts_from(s, c, from).len(),
    ensures
        forall|k: int|
            0 <= k < parts_from(s, c, from)[i].len() ==> (#[trigger] parts_from(s, c, from)[i][k])
                != c,
    decreases s.len() - from,
{
    lemma_find_from(s, c, from);
    let end = find_from(s, c, from);
    if end < s.len() && i > 0 {
        lemma_parts_lack(s, c, end + 1, i - 1);
    }
}

/// A part behind a separator is one more part.
pub proof fn lemma_parts_joined(s: Seq<char>, c: char, part: Seq<char>, from: int)
    requires
        0 <= from <= s.len(),
        forall|i: int| 0 <= i < part.len() ==> #[trigger] part[i] != c,
    ensures
        parts_from(s + seq![c] + part, c, from) == parts_from(s, c, from).push(part),
    decreases s.len() - from,
{
    let t = s + seq![c] + part;
    let end = find_from(s, c, from);
    let n = s.len() as int;
    lemma_find_from(s, c, from);
    assert forall|i: int| from <= i < end implies #[trigger] t[i] != c by {
        assert(t[i] == s[i]);
    }
    lemma_find_from_is(t, c, from, end);
    assert(t.subrange(from, end) =~= s.subrange(from, end));
    if end < n {
        lemma_parts_joined(s, c, part, end + 1);
        assert(seq![s.subrange(from, end)] + parts_from(s, c, end + 1).push(part) =~= (seq![
            s.subrange(from, end),
        ] + parts_from(s, c, end + 1)).push(part));
    } else {
        assert forall|i: int| n + 1 <= i < t.len() implies #[trigger] t[i] != c by {
            assert(t[i] == part[i - n - 1]);
        }
        lemma_find_from_is(t, c, n + 1, t.len() as int);
        assert(t.subrange(n + 1, t.len() as int) =~= part);
        assert(parts_from(t, c, n + 1) == seq![part]);
        assert(parts_from(s, c, from) == seq![s.subrange(from, n)]);
        assert(parts_from(t, c, from) == seq![t.subrange(from, n)] + parts_from(t, c, n + 1));
        assert(seq![s.subrange(from, n)] + seq![part] =~= seq![s.subrange(from, n)].push(part));
    }
}

/// A text without the separator is one part.
pub proof fn lemma_single_part(s: Seq<char>, c: char)
    requires
        forall|i: int| 0 <= i < s.len() ==> #[trigger] s[i] != c,
    ensures
        parts_of(s, c) == seq![s],
{
    lemma_find_from_is(s, c, 0, s.len() as int);
    assert(s.subrange(0, s.len() as int) =~= s);
}

/// The position is the first where `c` stands.
pub proof fn lemma_find_from_is(s: Seq<char>, c: char, from: int, end: int)
    requires
        0 <= from <= end <= s.len(),
        end < s.len() ==> s[end] == c,
        forall|i: int| from <= i < end ==> #[trigger] s[i] != c,
    ensures
        find_from(s, c, from) == end,
    decreases end - from,
{
    if from < end {
        lemma_find_from_is(s, c, from + 1, end);
    }
}

fn find_char(s: &Vec<char>, c: char, from: usize) -> (end: usize)
    requires
        from <= s@.len(),
    ensures
        end == find_from(s@, c, from as int),
        from <= end <= s@.len(),
{
    let mut end: usize = from;
    while end < s.len() && s[end] != c
        invariant
            from <= end <= s@.len(),
            forall|i: int| from <= i < end ==> #[trigger] s@[i] != c,
        decreases s@.len() - end,
    {
        end = end + 1;
    }
    proof {
        lemma_find_from_is(s@, c, from as int, end as int);
    }
    end
}

fn copy_chars(s: &Vec<char>, start: usize, end: usize) -> (out: Vec<char>)
    requires
        start <= end <= s@.len(),
    ensures
        out@ == s@.subrange(start as int, end as int),
{
    let mut out: Vec<char> = Vec::new();
    let mut i: usize = start;
    while i < end
        invariant
            start <= i <= end <= s@.len(),
            out@ =~= s@.subrange(start as int, i as int),
        decreases end - i,
    {
        out.push(s[i]);
        i = i + 1;
    }
    out
}

/// The texts of a list.
pub open spec fn texts(list: Seq<Vec<char>>) -> Seq<Seq<char>> {
    Seq::new(list.len(), |i: int| list[i]@)
}

/// The lines of a text.
pub fn split_lines(s: &Vec<char>) -> (lines: Vec<Vec<char>>)
    ensures
        texts(lines@) == lines_of(s@),
{
    let mut lines: Vec<Vec<char>> = Vec::new();
    let mut from: usize = 0;
    assert(texts(lines@) + lines_from(s@, 0) =~= lines_of(s@));
    while from < s.len()
        invariant
            from <= s@.len(),
            texts(lines@) + lines_from(s@, from as int) == lines_of(s@),
        decreases s@.len() - from,
    {
        let ghost before = lines@;
        let end: usize = find_char(s, '\n', from);
        if end == s.len() {
            let line = copy_chars(s, from, end);
            lines.push(line);
            assert(texts(lines@) =~= texts(before) + seq![s@.subrange(
                from as int,
                s@.len() as int,
            )]);
            return lines;
        }
        let last: usize = if end > from && s[end - 1] == '\r' {
            end - 1
        } else {
            end
        };
        let line = copy_chars(s, from, last);
        assert(line@ =~= without_return(s@.subrange(from as int, end as int)));
        lines.push(line);
        assert(texts(lines@) =~= texts(before) + seq![line@]);
        assert(texts(lines@) + lines_from(s@, end + 1) =~= texts(before) + (seq![line@]
            + lines_from(s@, end + 1)));
        from = end + 1;
    }
    assert(texts(lines@) + lines_from(s@, from as int) =~= texts(lines@));
    lines
}

/// The parts of a text, separated by `c`.
pub fn split_on(s: &Vec<char>, c: char) -> (parts: Vec<Vec<char>>)
    ensures
        texts(parts@) == parts_of(s@, c),
{
    let mut parts: Vec<Vec<char>> = Vec::new();
    let mut from: usize = 0;
    assert(texts(parts@) + parts_from(s@, c, 0) =~= parts_of(s@, c));
    loop
        invariant
            from <= s@.len(),
            texts(parts@) + parts_from(s@, c, from as int) == parts_of(s@, c),
        decreases s@.len() - from,
    {
        let ghost before = parts@;
        let end: usize = find_char(s, c, from);
        let part = copy_chars(s, from, end);
        parts.push(part);
        assert(texts(parts@) =~= texts(before) + seq![part@]);
        if end == s.len() {
            assert(texts(parts@) =~= parts_of(s@, c));
            return parts;
        }
        assert(texts(parts@) + parts_from(s@, c, end + 1) =~= texts(before) + (seq![part@]
            + parts_from(s@, c, end + 1)));
        from = end + 1;
    }
}

/// The first field of a line, and the rest of it; `None` where it has no tab.
pub fn split_key(s: &Vec<char>) -> (parts: (Vec<char>, Option<Vec<char>>))
    ensures
        parts.0@ == s@.subrange(0, find_from(s@, '\t', 0)),
        match parts.1 {
            Some(value) => find_from(s@, '\t', 0) < s@.len() && value@ == s@.subrange(
                find_from(s@, '\t', 0) + 1,
                s@.len() as int,
            ),
            None => find_from(s@, '\t', 0) == s@.len(),
        },
{
    let end: usize = find_char(s, '\t', 0);
    let key = copy_chars(s, 0, end);
    if end == s.len() {
        return (key, None);
    }
    (key, Some(copy_chars(s, end + 1, s.len())))
}

fn digit_of(c: char, radix: u64) -> (d: Option<u64>)
    requires
        2 <= radix <= 16,
    ensures
        match d {
            Some(v) => char_digit(c, radix as int) == Some(v as int),
            None => char_digit(c, radix as int) is None,
        },
{
    let v: u32 = c as u32;
    let d: u32 = if 48 <= v && v <= 57 {
        v - 48
    } else if 97 <= v && v <= 102 {
        v - 87
    } else if 65 <= v && v <= 70 {
        v - 55
    } else {
        16
    };
    if (d as u64) < radix {
        Some(d as u64)
    } else {
        None
    }
}

/// No digits behind a prefix bring its number back down, or make it one.
pub proof fn lemma_digits_prefix(s: Seq<char>, count: int, radix: int)
    requires
        0 <= count <= s.len(),
        radix >= 1,
    ensures
        digits_value(s.take(count), radix) is None ==> digits_value(s, radix) is None,
        digits_value(s.take(count), radix) matches Some(v) ==> v >= 0 && (digits_value(
            s,
            radix,
        ) matches Some(w) ==> w >= v),
    decreases s.len(),
{
    if count == s.len() {
        assert(s.take(count) =~= s);
        lemma_digits_nonnegative(s, radix);
    } else {
        lemma_digits_prefix(s.drop_last(), count, radix);
        assert(s.drop_last().take(count) =~= s.take(count));
        lemma_digits_nonnegative(s.drop_last(), radix);
        match (digits_value(s.drop_last(), radix), char_digit(s.last(), radix)) {
            (Some(front), Some(d)) => {
                assert(front * radix + d >= front) by (nonlinear_arith)
                    requires
                        front >= 0,
                        radix >= 1,
                        d >= 0,
                ;
            },
            _ => {},
        }
    }
}

pub proof fn lemma_digits_nonnegative(s: Seq<char>, radix: int)
    requires
        radix >= 1,
    ensures
        digits_value(s, radix) matches Some(v) ==> v >= 0,
    decreases s.len(),
{
    if s.len() > 0 {
        lemma_digits_nonnegative(s.drop_last(), radix);
        match (digits_value(s.drop_last(), radix), char_digit(s.last(), radix)) {
            (Some(front), Some(d)) => {
                assert(front * radix + d >= 0) by (nonlinear_arith)
                    requires
                        front >= 0,
                        radix >= 1,
                        d >= 0,
                ;
            },
            _ => {},
        }
    }
}

/// The number up to `limit` that a numeral stands for, or what is wrong with it.
pub fn scan_number(s: &Vec<char>, radix: u64, limit: u64) -> (r: Result<u64, NumeralFault>)
    requires
        2 <= radix <= 16,
    ensures
        match r {
            Ok(n) => numeral_fault(s@, radix as int, limit as int) is None && number_in(
                s@,
                radix as int,
                limit as int,
            ) == Some(n as int),
            Err(fault) => numeral_fault(s@, radix as int, limit as int) == Some(fault)
                && number_in(s@, radix as int, limit as int) is None,
        },
{
    proof {
        law_faultless_numerals_are_numbers(s@, radix as int, limit as int);
    }
    if s.len() == 0 {
        return Err(NumeralFault::Empty);
    }
    let start: usize = if s.len() > 1 && s[0] == '+' {
        1
    } else {
        0
    };
    let ghost digits = unsigned(s@);
    assert(digits =~= s@.subrange(start as int, s@.len() as int));
    let mut value: u64 = 0;
    let mut i: usize = start;
    assert(digits.take(0) =~= Seq::empty());
    while i < s.len()
        invariant
            start <= i <= s@.len(),
            start <= 1,
            2 <= radix <= 16,
            s@.len() > 0,
            digits == unsigned(s@),
            digits == s@.subrange(start as int, s@.len() as int),
            value <= limit,
            digits_value(digits.take(i - start), radix as int) == Some(value as int),
            digit_fault(digits, radix as int, limit as int, (i - start) as nat) is None,
            numeral_fault(s@, radix as int, limit as int) is None <==> number_in(
                s@,
                radix as int,
                limit as int,
            ) is Some,
        decreases s@.len() - i,
    {
        let ghost k = i - start;
        proof {
            assert(digits.take(k + 1).drop_last() =~= digits.take(k));
            assert(digits.take(k + 1).last() == s@[i as int]);
            if digit_fault(digits, radix as int, limit as int, (k + 1) as nat) is Some {
                lemma_fault_stays(
                    digits,
                    radix as int,
                    limit as int,
                    (k + 1) as nat,
                    digits.len(),
                );
            }
        }
        let d: u64 = match digit_of(s[i], radix) {
            Some(d) => d,
            None => {
                return Err(NumeralFault::InvalidDigit);
            },
        };
        let scaled: u64 = match value.checked_mul(radix) {
            Some(v) => v,
            None => {
                assert(value * radix + d > u64::MAX);
                return Err(NumeralFault::TooLarge);
            },
        };
        let next: u64 = match scaled.checked_add(d) {
            Some(v) => v,
            None => {
                return Err(NumeralFault::TooLarge);
            },
        };
        if next > limit {
            return Err(NumeralFault::TooLarge);
        }
        value = next;
        i = i + 1;
    }
    assert(digits.take(digits.len() as int) =~= digits);
    Ok(value)
}

/// The number up to `limit` that a numeral stands for.
pub fn parse_number(s: &Vec<char>, radix: u64, limit: u64) -> (v: Option<u64>)
    requires
        2 <= radix <= 16,
    ensures
        match v {
            Some(n) => number_in(s@, radix as int, limit as int) == Some(n as int),
            None => number_in(s@, radix as int, limit as int) is None,
        },
{
    match scan_number(s, radix, limit) {
        Ok(n) => Some(n),
        Err(_) => None,
    }
}

/// The text that an encoded field stands for.
pub fn decode_field(s: &Vec<char>) -> (r: Result<String, String>)
    ensures
        match decoded(s@) {
            Ok(text) => r matches Ok(t) && t@ == text,
            Err(e) => r matches Err(f) && f@ == e,
        },
{
    if s.len() % 2 != 0 {
        return Err("invalid hex string in CPK manifest".to_owned());
    }
    let mut bytes: Vec<u8> = Vec::new();
    let mut k: usize = 0;
    assert(bytes@ =~= Seq::empty());
    while k < s.len() / 2
        invariant
            k <= s@.len() / 2,
            s@.len() % 2 == 0,
            hex_bytes(s@, k as nat) == Some(bytes@),
        decreases s@.len() / 2 - k,
    {
        let pair: Vec<char> = vec![s[2 * k], s[2 * k + 1]];
        assert(pair@ =~= seq![s@[2 * k as int], s@[2 * k + 1]]);
        match parse_number(&pair, 16, 255) {
            Some(v) => {
                bytes.push(v as u8);
            },
            None => {
                proof {
                    assert(hex_bytes(s@, (k + 1) as nat) is None);
                    lemma_hex_bytes_none(s@, (k + 1) as nat, s@.len() / 2);
                }
                return Err("invalid hex string in CPK manifest".to_owned());
            },
        }
        k = k + 1;
    }
    match utf8_text(bytes.as_slice()) {
        Some(text) => Ok(text),
        None => Err("manifest string is not UTF-8".to_owned()),
    }
}

/// A text as an encoded field.
pub fn encode_field(text: &str) -> (out: String)
    ensures
        out@ == encoded(text@),
{
    let bytes: &[u8] = text.as_bytes();
    let mut out = String::new();
    let mut i: usize = 0;
    assert(out@ =~= hex_of(bytes@, 0));
    while i < bytes.len()
        invariant
            i <= bytes@.len(),
            out@ == hex_of(bytes@, i as nat),
        decreases bytes@.len() - i,
    {
        let ghost before = out@;
        let b: u8 = bytes[i];
        out.append(digit_str((b / 16) as u64));
        out.append(digit_str((b % 16) as u64));
        assert(out@ =~= before + byte_hex(b));
        i = i + 1;
    }
    out
}

proof fn lemma_hex_bytes_none(s: Seq<char>, few: nat, many: nat)
    requires
        few <= many,
        hex_bytes(s, few) is None,
    ensures
        hex_bytes(s, many) is None,
    decreases many,
{
    if few < many {
        lemma_hex_bytes_none(s, few, (many - 1) as nat);
    }
}

} // verus!
