//! What is read of a manifest stands in it.

use vstd::prelude::*;

use crate::manifest::fields::{
    decoded, digit_fault, digits_value, lemma_digits_nonnegative, lemma_faultless, lemma_find_from,
    lines_of, number_in, numeral_fault, parts_of, unsigned, NumeralFault,
};
use crate::manifest::model::{entries_upto, entry_of, manifest_of, value_of, EntryView};
use crate::utils::text::char_digit;

verus! {

/// The text behind a key and a tab in the line `n`.
pub open spec fn behind(lines: Seq<Seq<char>>, n: int, key: Seq<char>) -> Seq<char> {
    lines[n].skip(key.len() as int + 1)
}

/// The line `n` is the key, a tab and a value.
pub open spec fn has_key(lines: Seq<Seq<char>>, n: int, key: Seq<char>) -> bool {
    &&& n < lines.len()
    &&& key.len() < lines[n].len()
    &&& lines[n] == key + seq!['\t'] + behind(lines, n, key)
}

/// The line `n` is the key, a tab and this number.
pub open spec fn tells_number(
    lines: Seq<Seq<char>>,
    n: int,
    key: Seq<char>,
    radix: int,
    v: int,
) -> bool {
    has_key(lines, n, key) && number_in(behind(lines, n, key), radix, 0xffff_ffff_ffff_ffff)
        == Some(v)
}

/// The line `n` is the key, a tab and `1` or `0`.
pub open spec fn tells_flag(lines: Seq<Seq<char>>, n: int, key: Seq<char>, v: bool) -> bool {
    has_key(lines, n, key) && behind(lines, n, key) == if v {
        seq!['1']
    } else {
        seq!['0']
    }
}

/// The line is a record of this entry: ten fields between tabs, in their order.
pub open spec fn tells_entry(line: Seq<char>, e: EntryView) -> bool {
    let fields = parts_of(line, '\t');
    let wide = 0xffff_ffff_ffff_ffffint;
    &&& fields.len() == 10
    &&& fields[0] == "entry"@
    &&& number_in(fields[1], 10, wide) == Some(e.id as int)
    &&& number_in(fields[2], 10, wide) == Some(e.extracted_size as int)
    &&& number_in(fields[3], 16, wide) == Some(e.extracted_hash as int)
    &&& number_in(fields[4], 10, wide) == Some(e.packed_size as int)
    &&& number_in(fields[5], 10, wide) == Some(e.packed_offset as int)
    &&& number_in(fields[6], 16, wide) == Some(e.packed_hash as int)
    &&& decoded(fields[7]) == Ok::<Seq<char>, Seq<char>>(e.directory)
    &&& decoded(fields[8]) == Ok::<Seq<char>, Seq<char>>(e.file_name)
    &&& decoded(fields[9]) == Ok::<Seq<char>, Seq<char>>(e.user_string)
}

/// A number that is read has at most 64 bits.
proof fn lemma_number_bound(text: Seq<char>, radix: int)
    requires
        radix >= 1,
    ensures
        number_in(text, radix, 0xffff_ffff_ffff_ffff) matches Some(v) ==> 0 <= v
            <= 0xffff_ffff_ffff_ffff,
{
    lemma_digits_nonnegative(unsigned(text), radix);
}

proof fn lemma_value(lines: Seq<Seq<char>>, n: int, key: Seq<char>)
    requires
        0 <= n,
        value_of(lines, n, key) is Ok,
    ensures
        has_key(lines, n, key),
        value_of(lines, n, key)->Ok_0 == behind(lines, n, key),
{
    let line = lines[n];
    lemma_find_from(line, '\t', 0);
    assert(line.subrange(0, key.len() as int) == key);
    assert(behind(lines, n, key) =~= value_of(lines, n, key)->Ok_0);
    assert forall|i: int| 0 <= i < line.len() implies line[i] == (key + seq!['\t'] + behind(
        lines,
        n,
        key,
    ))[i] by {
        if i < key.len() {
            assert(line.subrange(0, key.len() as int)[i] == line[i]);
        }
    }
    assert(line =~= key + seq!['\t'] + behind(lines, n, key));
}

/// A line is read as an entry just where it is a record of one.
pub proof fn law_entries_stand_in_their_line(line: Seq<char>)
    ensures
        entry_of(line) matches Ok(e) ==> tells_entry(line, e),
        forall|e: EntryView|
            #![trigger tells_entry(line, e)]
            tells_entry(line, e) ==> entry_of(line) == Ok::<EntryView, Seq<char>>(e),
{
    reveal(entry_of);
    let fields = parts_of(line, '\t');
    lemma_number_bound(fields[1], 10);
    lemma_number_bound(fields[2], 10);
    lemma_number_bound(fields[3], 16);
    lemma_number_bound(fields[4], 10);
    lemma_number_bound(fields[5], 10);
    lemma_number_bound(fields[6], 16);
    assert forall|e: EntryView| #[trigger] tells_entry(line, e) implies entry_of(line) == Ok::<
        EntryView,
        Seq<char>,
    >(e) by {
        assert(entry_of(line) is Ok);
        assert(entry_of(line)->Ok_0 == e);
    }
}

proof fn lemma_entries_stand(lines: Seq<Seq<char>>, end: int, n: int)
    requires
        end <= lines.len(),
        entries_upto(lines, end) is Ok,
    ensures
        12 <= n < end && lines[n].len() > 0 ==> entry_of(lines[n]) is Ok && entries_upto(
            lines,
            end,
        )->Ok_0.contains(entry_of(lines[n])->Ok_0),
        entries_upto(lines, end)->Ok_0.len() <= if end > 12 {
            end - 12
        } else {
            0
        },
        forall|k: int|
            #![trigger entries_upto(lines, end)->Ok_0[k]]
            0 <= k < entries_upto(lines, end)->Ok_0.len() ==> exists|l: int|
                #![trigger lines[l]]
                12 <= l < end && lines[l].len() > 0 && entry_of(lines[l]) == Ok::<
                    EntryView,
                    Seq<char>,
                >(entries_upto(lines, end)->Ok_0[k]),
    decreases end,
{
    if end > 12 {
        lemma_entries_stand(lines, end - 1, n);
        let before = entries_upto(lines, end - 1)->Ok_0;
        let now = entries_upto(lines, end)->Ok_0;
        if lines[end - 1].len() > 0 {
            let e = entry_of(lines[end - 1])->Ok_0;
            assert(now == before.push(e));
            assert(now[before.len() as int] == e);
            if 12 <= n < end - 1 && lines[n].len() > 0 {
                let k = choose|k: int|
                    0 <= k < before.len() && before[k] == entry_of(lines[n])->Ok_0;
                assert(now[k] == before[k]);
            }
            assert forall|k: int| 0 <= k < now.len() implies exists|l: int|
                #![trigger lines[l]]
                12 <= l < end && lines[l].len() > 0 && entry_of(lines[l]) == Ok::<
                    EntryView,
                    Seq<char>,
                >(#[trigger] now[k]) by {
                if k < before.len() {
                    assert(now[k] == before[k]);
                } else {
                    assert(lines[end - 1].len() > 0);
                }
            }
        }
    }
}

/// What is read of a manifest stands in it: the mark of its format in the first
/// line, then one line for each thing it tells, with its key, and behind them the
/// records of its entries and nothing else.
pub proof fn law_what_is_read_stands_there(text: Seq<char>, n: int)
    ensures
        manifest_of(text) matches Ok(m) ==> {
            let lines = lines_of(text);
            &&& lines[0] == "CRI_CPK_MANIFEST_V2"@
            &&& has_key(lines, 1, "source"@)
            &&& decoded(behind(lines, 1, "source"@)) == Ok::<Seq<char>, Seq<char>>(
                m.source_archive,
            )
            &&& tells_number(lines, 2, "archive_size"@, 10, m.archive_size as int)
            &&& tells_number(lines, 3, "archive_hash"@, 16, m.archive_hash as int)
            &&& tells_number(lines, 4, "alignment"@, 10, m.alignment as int)
            &&& tells_flag(lines, 5, "has_toc"@, m.has_toc)
            &&& tells_flag(lines, 6, "has_itoc"@, m.has_itoc)
            &&& tells_flag(lines, 7, "direct_itoc"@, m.direct_itoc)
            &&& tells_flag(lines, 8, "p5r"@, m.p5r)
            &&& tells_number(lines, 9, "version"@, 10, m.version as int)
            &&& tells_number(lines, 10, "revision"@, 10, m.revision as int)
            &&& tells_number(lines, 11, "update_date_time"@, 10, m.update_date_time as int)
            &&& 12 <= n < lines.len() && lines[n].len() > 0 ==> exists|k: int|
                0 <= k < m.entries.len() && tells_entry(lines[n], #[trigger] m.entries[k])
            &&& 0 <= n < m.entries.len() ==> exists|l: int|
                12 <= l < lines.len() && tells_entry(#[trigger] lines[l], m.entries[n])
        },
{
    if manifest_of(text) is Ok {
        let lines = lines_of(text);
        let m = manifest_of(text)->Ok_0;
        reveal_strlit("1");
        reveal_strlit("0");
        assert("1"@ =~= seq!['1']);
        assert("0"@ =~= seq!['0']);
        lemma_value(lines, 1, "source"@);
        lemma_value(lines, 2, "archive_size"@);
        lemma_value(lines, 3, "archive_hash"@);
        lemma_value(lines, 4, "alignment"@);
        lemma_value(lines, 5, "has_toc"@);
        lemma_value(lines, 6, "has_itoc"@);
        lemma_value(lines, 7, "direct_itoc"@);
        lemma_value(lines, 8, "p5r"@);
        lemma_value(lines, 9, "version"@);
        lemma_value(lines, 10, "revision"@);
        lemma_value(lines, 11, "update_date_time"@);
        lemma_number_bound(behind(lines, 2, "archive_size"@), 10);
        lemma_number_bound(behind(lines, 3, "archive_hash"@), 16);
        lemma_number_bound(behind(lines, 4, "alignment"@), 10);
        lemma_number_bound(behind(lines, 9, "version"@), 10);
        lemma_number_bound(behind(lines, 10, "revision"@), 10);
        lemma_number_bound(behind(lines, 11, "update_date_time"@), 10);
        lemma_entries_stand(lines, lines.len() as int, n);
        assert(m.entries == entries_upto(lines, lines.len() as int)->Ok_0);
        if 12 <= n < lines.len() && lines[n].len() > 0 {
            law_entries_stand_in_their_line(lines[n]);
            let e = entry_of(lines[n])->Ok_0;
            let k = choose|k: int| 0 <= k < m.entries.len() && m.entries[k] == e;
            assert(tells_entry(lines[n], m.entries[k]));
        }
        if 0 <= n < m.entries.len() {
            let l = choose|l: int|
                #![trigger lines[l]]
                12 <= l < lines.len() && lines[l].len() > 0 && entry_of(lines[l]) == Ok::<
                    EntryView,
                    Seq<char>,
                >(m.entries[n]);
            law_entries_stand_in_their_line(lines[l]);
            assert(tells_entry(lines[l], m.entries[n]));
        }
    }
}

proof fn lemma_fault(digits: Seq<char>, radix: int, limit: int, count: nat)
    requires
        radix >= 1,
        limit >= 0,
        count <= digits.len(),
    ensures
        digit_fault(digits, radix, limit, count) matches Some(fault) ==> match fault {
            NumeralFault::Empty => false,
            NumeralFault::InvalidDigit => exists|i: int|
                0 <= i < count && char_digit(#[trigger] digits[i], radix) is None,
            NumeralFault::TooLarge => exists|n: int|
                1 <= n <= count && (digits_value(#[trigger] digits.take(n), radix) matches Some(v)
                    && v > limit),
        },
    decreases count,
{
    if count > 0 {
        lemma_fault(digits, radix, limit, (count - 1) as nat);
        if digit_fault(digits, radix, limit, (count - 1) as nat) is None && digit_fault(
            digits,
            radix,
            limit,
            count,
        ) == Some(NumeralFault::TooLarge) {
            lemma_faultless(digits, radix, limit, (count - 1) as nat);
            let front = digits.take(count as int);
            assert(front.drop_last() =~= digits.take(count - 1));
            assert(front.last() == digits[count - 1]);
            assert(digits_value(digits.take(count as int), radix) is Some);
        }
    }
}

/// A text that stands for no number is empty, has a character that is no digit, or
/// begins with digits for a number above the limit, as the fault tells.
pub proof fn law_faults_tell_what_is_wrong(text: Seq<char>, radix: int, limit: int)
    requires
        radix >= 1,
        limit >= 0,
    ensures
        numeral_fault(text, radix, limit) == Some(NumeralFault::Empty) <==> text.len() == 0,
        numeral_fault(text, radix, limit) == Some(NumeralFault::InvalidDigit) ==> exists|i: int|
            0 <= i < unsigned(text).len() && char_digit(#[trigger] unsigned(text)[i], radix)
                is None,
        numeral_fault(text, radix, limit) == Some(NumeralFault::TooLarge) ==> exists|n: int|
            1 <= n <= unsigned(text).len() && (digits_value(
                #[trigger] unsigned(text).take(n),
                radix,
            ) matches Some(v) && v > limit),
{
    if text.len() > 0 {
        lemma_fault(unsigned(text), radix, limit, unsigned(text).len());
    }
}

} // verus!
