//! A written manifest is read back.

use vstd::prelude::*;
use vstd::utf8::{encode_utf8, encode_utf8_decode_utf8, encode_utf8_valid_utf8};

use crate::manifest::fields::{
    byte_hex, decoded, digits_value, encoded, find_from, parts_from, hex_bytes, hex_of, hex_pair,
    lemma_find_from, lemma_find_from_is, lines_from, lines_of, number_in, unsigned, without_return,
};
use crate::manifest::model::{
    bool_text, entries_upto, entry_fields, entry_line, entry_of, hash_text, head_lines, head_of,
    manifest_lines, manifest_of, manifest_text, pair_line, tabbed, unlines, value_of, EntryView,
    ManifestView,
};
use crate::utils::text::{char_digit, digit_char, numeral, zero_padded};

verus! {

/// A lower-case hexadecimal digit.
pub open spec fn is_hex(c: char) -> bool {
    48 <= c as int <= 57 || 97 <= c as int <= 102
}

/// All characters are lower-case hexadecimal digits.
pub open spec fn all_hex(s: Seq<char>) -> bool {
    forall|i: int| 0 <= i < s.len() ==> is_hex(#[trigger] s[i])
}

/// `c` stands nowhere in `s`.
pub open spec fn lacks(s: Seq<char>, c: char) -> bool {
    forall|i: int| 0 <= i < s.len() ==> #[trigger] s[i] != c
}

/// Hexadecimal digits are neither separators nor a sign.
pub proof fn lemma_hex_lacks(s: Seq<char>)
    requires
        all_hex(s),
    ensures
        lacks(s, '\t'),
        lacks(s, '\n'),
        lacks(s, '\r'),
        lacks(s, '+'),
{
    assert forall|i: int| 0 <= i < s.len() implies #[trigger] s[i] != '\t' && s[i] != '\n' && s[i]
        != '\r' && s[i] != '+' by {
        assert(is_hex(s[i]));
    }
}

proof fn lemma_digit_char(d: int, radix: int)
    requires
        0 <= d < radix <= 16,
    ensures
        is_hex(digit_char(d)),
        char_digit(digit_char(d), radix) == Some(d),
{
}

/// A numeral is read as its number.
pub proof fn lemma_numeral(v: nat, radix: nat)
    requires
        2 <= radix <= 16,
    ensures
        numeral(v, radix).len() > 0,
        all_hex(numeral(v, radix)),
        digits_value(numeral(v, radix), radix as int) == Some(v as int),
    decreases v,
{
    let s = numeral(v, radix);
    if v < radix {
        lemma_digit_char(v as int, radix as int);
        assert(s.drop_last() =~= Seq::empty());
        assert(s.last() == digit_char(v as int));
        reveal_with_fuel(digits_value, 2);
        assert(0 * radix as int == 0);
    } else {
        assert(v / radix < v) by (nonlinear_arith)
            requires
                v >= radix,
                radix >= 2,
        ;
        lemma_numeral(v / radix, radix);
        lemma_digit_char((v % radix) as int, radix as int);
        assert(s.drop_last() =~= numeral(v / radix, radix));
        vstd::arithmetic::div_mod::lemma_fundamental_div_mod(v as int, radix as int);
        assert(radix * (v / radix) == (v / radix) * radix) by (nonlinear_arith);
    }
}

/// Zeros in front do not change a number.
proof fn lemma_leading_zeros(s: Seq<char>, n: nat, radix: int)
    requires
        2 <= radix <= 16,
    ensures
        digits_value(Seq::new(n, |i: int| '0') + s, radix) == digits_value(s, radix),
    decreases s.len() + n,
{
    let zeros = Seq::new(n, |i: int| '0');
    let t = zeros + s;
    if s.len() == 0 {
        assert(t =~= zeros);
        if n > 0 {
            let fewer = Seq::new((n - 1) as nat, |i: int| '0');
            lemma_leading_zeros(s, (n - 1) as nat, radix);
            assert(fewer + s =~= fewer);
            assert(t.drop_last() =~= fewer);
            lemma_digit_char(0, radix);
            assert(0 * radix == 0);
        } else {
            assert(t =~= s);
        }
    } else {
        lemma_leading_zeros(s.drop_last(), n, radix);
        assert(t.drop_last() =~= zeros + s.drop_last());
        assert(t.last() == s.last());
    }
}

/// A number in a field is read back.
pub proof fn lemma_number_in(v: u64, radix: nat, width: nat)
    requires
        2 <= radix <= 16,
    ensures
        ({
            let s = zero_padded(numeral(v as nat, radix), width);
            number_in(s, radix as int, u64::MAX as int) == Some(v as int) && all_hex(s) && s.len() > 0
        }),
{
    let t = numeral(v as nat, radix);
    let s = zero_padded(t, width);
    lemma_numeral(v as nat, radix);
    if t.len() < width {
        lemma_leading_zeros(t, (width - t.len()) as nat, radix as int);
        assert forall|i: int| 0 <= i < s.len() implies is_hex(#[trigger] s[i]) by {
            if i >= width - t.len() {
                assert(s[i] == t[i - (width - t.len())]);
            }
        }
    }
    lemma_hex_lacks(s);
    assert(unsigned(s) == s);
}

proof fn lemma_hex_of(bytes: Seq<u8>, count: nat)
    requires
        count <= bytes.len(),
    ensures
        hex_of(bytes, count).len() == 2 * count,
        all_hex(hex_of(bytes, count)),
    decreases count,
{
    if count > 0 {
        lemma_hex_of(bytes, (count - 1) as nat);
        let b = bytes[count - 1];
        lemma_digit_char((b / 16) as int, 16);
        lemma_digit_char((b % 16) as int, 16);
        let s = hex_of(bytes, count);
        assert forall|i: int| 0 <= i < s.len() implies is_hex(#[trigger] s[i]) by {
            if i >= 2 * count - 2 {
                assert(s[i] == byte_hex(b)[i - (2 * count - 2)]);
            } else {
                assert(s[i] == hex_of(bytes, (count - 1) as nat)[i]);
            }
        }
    }
}

/// The characters of a byte stand behind those of the bytes before it.
proof fn lemma_hex_at(bytes: Seq<u8>, k: int, count: nat)
    requires
        0 <= k < count <= bytes.len(),
    ensures
        hex_of(bytes, count)[2 * k] == byte_hex(bytes[k])[0],
        hex_of(bytes, count)[2 * k + 1] == byte_hex(bytes[k])[1],
    decreases count,
{
    lemma_hex_of(bytes, (count - 1) as nat);
    if k < count - 1 {
        lemma_hex_at(bytes, k, (count - 1) as nat);
    }
}

proof fn lemma_hex_pair(b: u8)
    ensures
        hex_pair(byte_hex(b)[0], byte_hex(b)[1]) == Some(b as int),
{
    let x = (b / 16) as int;
    let y = (b % 16) as int;
    lemma_digit_char(x, 16);
    lemma_digit_char(y, 16);
    let s = seq![digit_char(x), digit_char(y)];
    assert(all_hex(s));
    lemma_hex_lacks(s);
    assert(s[0] != '+');
    assert(unsigned(s) == s);
    assert(s.drop_last() =~= seq![digit_char(x)]);
    assert(seq![digit_char(x)].drop_last() =~= Seq::empty());
    reveal_with_fuel(digits_value, 3);
    assert(digits_value(s, 16) == Some(x * 16 + y));
}

proof fn lemma_hex_bytes(bytes: Seq<u8>, count: nat)
    requires
        count <= bytes.len(),
    ensures
        hex_bytes(hex_of(bytes, bytes.len()), count) == Some(bytes.take(count as int)),
    decreases count,
{
    if count == 0 {
        assert(bytes.take(0) =~= Seq::empty());
    } else {
        let k = count - 1;
        lemma_hex_bytes(bytes, k as nat);
        lemma_hex_at(bytes, k, bytes.len());
        lemma_hex_pair(bytes[k]);
        assert(bytes.take(k).push(bytes[k]) =~= bytes.take(count as int));
    }
}

/// An encoded field is decoded to its text, whatever the text holds.
pub proof fn law_encoded_field_decodes(text: Seq<char>)
    ensures
        decoded(encoded(text)) == Ok::<Seq<char>, Seq<char>>(text),
        all_hex(encoded(text)),
{
    let bytes = encode_utf8(text);
    lemma_hex_of(bytes, bytes.len());
    lemma_hex_bytes(bytes, bytes.len());
    assert(bytes.take(bytes.len() as int) =~= bytes);
    encode_utf8_valid_utf8(text);
    encode_utf8_decode_utf8(text);
}

/// The lines hold no line ends.
spec fn line_like(line: Seq<char>) -> bool {
    lacks(line, '\n') && (line.len() > 0 ==> line.last() != '\r')
}

proof fn lemma_unlines_prefix(lines: Seq<Seq<char>>, few: nat, many: nat)
    requires
        few <= many <= lines.len(),
    ensures
        unlines(lines, few).len() <= unlines(lines, many).len(),
        unlines(lines, many).subrange(0, unlines(lines, few).len() as int) == unlines(lines, few),
    decreases many,
{
    let n = unlines(lines, few).len() as int;
    if few < many {
        lemma_unlines_prefix(lines, few, (many - 1) as nat);
        assert(unlines(lines, many).subrange(0, n) =~= unlines(lines, (many - 1) as nat).subrange(
            0,
            n,
        ));
    } else {
        assert(unlines(lines, many).subrange(0, n) =~= unlines(lines, few));
    }
}

/// Lines that were put together are taken apart again.
proof fn lemma_lines_apart(lines: Seq<Seq<char>>, k: nat)
    requires
        k <= lines.len(),
        forall|i: int| 0 <= i < lines.len() ==> line_like(#[trigger] lines[i]),
    ensures
        lines_from(unlines(lines, lines.len()), unlines(lines, k).len() as int) == lines.skip(
            k as int,
        ),
    decreases lines.len() - k,
{
    let s = unlines(lines, lines.len());
    let from = unlines(lines, k).len() as int;
    if k == lines.len() {
        assert(lines.skip(k as int) =~= Seq::empty());
    } else {
        let line = lines[k as int];
        assert(line_like(line));
        let next = unlines(lines, k + 1);
        lemma_unlines_prefix(lines, k + 1, lines.len());
        lemma_unlines_prefix(lines, k, lines.len());
        let end = from + line.len();
        assert(next == unlines(lines, k) + line + seq!['\n']);
        assert(next.len() == end + 1);
        assert forall|i: int| from <= i < end implies #[trigger] s[i] == line[i - from] by {
            assert(s.subrange(0, next.len() as int)[i] == s[i]);
            assert(next[i] == line[i - from]);
        }
        assert(s[end] == '\n') by {
            assert(s.subrange(0, next.len() as int)[end] == s[end]);
        }
        assert forall|i: int| from <= i < end implies #[trigger] s[i] != '\n' by {
            assert(line[i - from] != '\n');
        }
        lemma_find_from_is(s, '\n', from, end);
        assert(s.subrange(from, end) =~= line);
        assert(without_return(line) == line);
        lemma_lines_apart(lines, k + 1);
        assert(seq![line] + lines.skip(k as int + 1) =~= lines.skip(k as int));
    }
}

proof fn lemma_tabbed_prefix(fields: Seq<Seq<char>>, few: nat, many: nat)
    requires
        1 <= few <= many <= fields.len(),
    ensures
        tabbed(fields, few).len() <= tabbed(fields, many).len(),
        tabbed(fields, many).subrange(0, tabbed(fields, few).len() as int) == tabbed(fields, few),
        few < many ==> tabbed(fields, few).len() < tabbed(fields, many).len() && tabbed(
            fields,
            many,
        )[tabbed(fields, few).len() as int] == '\t',
    decreases many,
{
    let n = tabbed(fields, few).len() as int;
    if few < many {
        lemma_tabbed_prefix(fields, few, (many - 1) as nat);
        let before = tabbed(fields, (many - 1) as nat);
        let s = tabbed(fields, many);
        assert(s == before + seq!['\t'] + fields[many - 1]);
        assert(s.subrange(0, n) =~= before.subrange(0, n));
        if few < many - 1 {
            assert(s[n] == before[n]);
        }
    } else {
        assert(tabbed(fields, many).subrange(0, n) =~= tabbed(fields, few));
    }
}

/// Where the field `k` begins.
spec fn field_start(fields: Seq<Seq<char>>, k: nat) -> int {
    if k == 0 {
        0
    } else {
        tabbed(fields, k).len() as int + 1
    }
}

/// Fields that were put together are taken apart again.
proof fn lemma_fields_apart(fields: Seq<Seq<char>>, k: nat)
    requires
        k < fields.len(),
        forall|i: int| 0 <= i < fields.len() ==> lacks(#[trigger] fields[i], '\t'),
    ensures
        parts_from(tabbed(fields, fields.len()), '\t', field_start(fields, k)) == fields.skip(k as int),
    decreases fields.len() - k,
{
    let s = tabbed(fields, fields.len());
    let from = field_start(fields, k);
    let field = fields[k as int];
    let upto = tabbed(fields, k + 1);
    let end = upto.len() as int;
    lemma_tabbed_prefix(fields, k + 1, fields.len());
    assert(lacks(field, '\t'));
    if k > 0 {
        assert(upto == tabbed(fields, k) + seq!['\t'] + field);
    }
    assert(end == from + field.len());
    assert forall|i: int| from <= i < end implies #[trigger] s[i] == field[i - from] by {
        assert(s.subrange(0, end)[i] == s[i]);
        assert(upto[i] == field[i - from]);
    }
    assert forall|i: int| from <= i < end implies #[trigger] s[i] != '\t' by {
        assert(field[i - from] != '\t');
    }
    lemma_find_from_is(s, '\t', from, end);
    assert(s.subrange(from, end) =~= field);
    if k + 1 == fields.len() {
        assert(fields.skip(k as int) =~= seq![field]);
    } else {
        lemma_fields_apart(fields, k + 1);
        assert(seq![field] + fields.skip(k as int + 1) =~= fields.skip(k as int));
    }
}

/// A key and its value are found again.
proof fn lemma_pair(key: Seq<char>, value: Seq<char>, lines: Seq<Seq<char>>, n: int)
    requires
        lacks(key, '\t'),
        0 <= n < lines.len(),
        lines[n] == pair_line(key, value),
    ensures
        value_of(lines, n, key) == Ok::<Seq<char>, Seq<char>>(value),
{
    let line = pair_line(key, value);
    let at = key.len() as int;
    assert forall|i: int| 0 <= i < at implies #[trigger] line[i] != '\t' by {
        assert(line[i] == key[i]);
    }
    lemma_find_from_is(line, '\t', 0, at);
    assert(line.subrange(0, at) =~= key);
    assert(line.subrange(at + 1, line.len() as int) =~= value);
}

proof fn lemma_bool_text(v: bool)
    ensures
        all_hex(bool_text(v)),
        "0"@ != "1"@,
        bool_text(v).len() == 1,
{
    reveal_strlit("0");
    reveal_strlit("1");
    assert("0"@.len() == 1 && "0"@[0] == '0');
    assert("1"@.len() == 1 && "1"@[0] == '1');
}

/// The keys hold no tabs and no line ends.
proof fn lemma_keys()
    ensures
        lacks("source"@, '\t') && lacks("source"@, '\n'),
        lacks("archive_size"@, '\t') && lacks("archive_size"@, '\n'),
        lacks("archive_hash"@, '\t') && lacks("archive_hash"@, '\n'),
        lacks("alignment"@, '\t') && lacks("alignment"@, '\n'),
        lacks("has_toc"@, '\t') && lacks("has_toc"@, '\n'),
        lacks("has_itoc"@, '\t') && lacks("has_itoc"@, '\n'),
        lacks("direct_itoc"@, '\t') && lacks("direct_itoc"@, '\n'),
        lacks("p5r"@, '\t') && lacks("p5r"@, '\n'),
        lacks("version"@, '\t') && lacks("version"@, '\n'),
        lacks("revision"@, '\t') && lacks("revision"@, '\n'),
        lacks("update_date_time"@, '\t') && lacks("update_date_time"@, '\n'),
        lacks("entry"@, '\t') && lacks("entry"@, '\n') && "entry"@.len() == 5,
        line_like("CRI_CPK_MANIFEST_V2"@),
{
    reveal_strlit("source");
    reveal_strlit("archive_size");
    reveal_strlit("archive_hash");
    reveal_strlit("alignment");
    reveal_strlit("has_toc");
    reveal_strlit("has_itoc");
    reveal_strlit("direct_itoc");
    reveal_strlit("p5r");
    reveal_strlit("version");
    reveal_strlit("revision");
    reveal_strlit("update_date_time");
    reveal_strlit("entry");
    reveal_strlit("CRI_CPK_MANIFEST_V2");
    assert("CRI_CPK_MANIFEST_V2"@.last() == '2');
}

proof fn lemma_number_plain(v: u64)
    ensures
        number_in(numeral(v as nat, 10), 10, u64::MAX as int) == Some(v as int),
        all_hex(numeral(v as nat, 10)),
        number_in(hash_text(v), 16, u64::MAX as int) == Some(v as int),
        all_hex(hash_text(v)),
        numeral(v as nat, 10).len() > 0,
        hash_text(v).len() > 0,
{
    lemma_number_in(v, 10, 0);
    lemma_number_in(v, 16, 16);
}

/// A line of a key and hexadecimal digits has no line end in it.
proof fn lemma_pair_line_like(key: Seq<char>, value: Seq<char>)
    requires
        lacks(key, '\n'),
        all_hex(value),
    ensures
        line_like(pair_line(key, value)),
{
    let line = pair_line(key, value);
    lemma_hex_lacks(value);
    assert forall|i: int| 0 <= i < line.len() implies #[trigger] line[i] != '\n' by {
        if i < key.len() {
            assert(line[i] == key[i]);
        } else if i > key.len() {
            assert(line[i] == value[i - key.len() - 1]);
        }
    }
    if value.len() > 0 {
        assert(line.last() == value[value.len() - 1]);
    } else {
        assert(line.last() == '\t');
    }
}

/// The lines in front of the entries are read back.
proof fn lemma_head(m: ManifestView, lines: Seq<Seq<char>>)
    requires
        lines.len() >= 12,
        forall|i: int| 0 <= i < 12 ==> #[trigger] lines[i] == head_lines(m)[i],
    ensures
        head_of(lines) == Ok::<ManifestView, Seq<char>>(
            ManifestView { entries: Seq::empty(), ..m },
        ),
{
    lemma_keys();
    law_encoded_field_decodes(m.source_archive);
    lemma_number_plain(m.archive_size);
    lemma_number_plain(m.archive_hash);
    lemma_number_plain(m.alignment as u64);
    lemma_number_plain(m.version as u64);
    lemma_number_plain(m.revision as u64);
    lemma_number_plain(m.update_date_time);
    lemma_bool_text(true);
    lemma_pair("source"@, encoded(m.source_archive), lines, 1);
    lemma_pair("archive_size"@, numeral(m.archive_size as nat, 10), lines, 2);
    lemma_pair("archive_hash"@, hash_text(m.archive_hash), lines, 3);
    lemma_pair("alignment"@, numeral(m.alignment as nat, 10), lines, 4);
    lemma_pair("has_toc"@, bool_text(m.has_toc), lines, 5);
    lemma_pair("has_itoc"@, bool_text(m.has_itoc), lines, 6);
    lemma_pair("direct_itoc"@, bool_text(m.direct_itoc), lines, 7);
    lemma_pair("p5r"@, bool_text(m.p5r), lines, 8);
    lemma_pair("version"@, numeral(m.version as nat, 10), lines, 9);
    lemma_pair("revision"@, numeral(m.revision as nat, 10), lines, 10);
    lemma_pair("update_date_time"@, numeral(m.update_date_time as nat, 10), lines, 11);
    assert(lines[0] == head_lines(m)[0]);
    let read = head_of(lines)->Ok_0;
    assert(read =~= ManifestView { entries: Seq::empty(), ..m });
}

/// The line of an entry is read back.
proof fn lemma_entry(e: EntryView)
    ensures
        entry_of(entry_line(e)) == Ok::<EntryView, Seq<char>>(e),
        entry_line(e).len() > 0,
        line_like(entry_line(e)),
{
    reveal(entry_of);
    let fields = entry_fields(e);
    lemma_keys();
    lemma_number_plain(e.id as u64);
    lemma_number_plain(e.extracted_size);
    lemma_number_plain(e.extracted_hash);
    lemma_number_plain(e.packed_size as u64);
    lemma_number_plain(e.packed_offset);
    lemma_number_plain(e.packed_hash);
    law_encoded_field_decodes(e.directory);
    law_encoded_field_decodes(e.file_name);
    law_encoded_field_decodes(e.user_string);
    assert(fields.len() == 10);
    assert(all_hex(fields[1]));
    assert(all_hex(fields[2]));
    assert(all_hex(fields[3]));
    assert(all_hex(fields[4]));
    assert(all_hex(fields[5]));
    assert(all_hex(fields[6]));
    assert(all_hex(fields[7]));
    assert(all_hex(fields[8]));
    assert(all_hex(fields[9]));
    assert forall|i: int| 0 <= i < fields.len() implies lacks(#[trigger] fields[i], '\t') && lacks(
        fields[i],
        '\n',
    ) && (i > 0 ==> lacks(fields[i], '\r')) by {
        if i > 0 {
            lemma_hex_lacks(fields[i]);
        }
    }
    lemma_fields_apart(fields, 0);
    assert(fields.skip(0) =~= fields);
    lemma_tabbed_like(fields, 10);
    lemma_tabbed_prefix(fields, 1, 10);
}

/// Fields without line ends make a line without line ends.
proof fn lemma_tabbed_like(fields: Seq<Seq<char>>, count: nat)
    requires
        2 <= count <= fields.len(),
        forall|i: int|
            0 <= i < fields.len() ==> lacks(#[trigger] fields[i], '\n') && (i > 0 ==> lacks(
                fields[i],
                '\r',
            )),
    ensures
        line_like(tabbed(fields, count)),
    decreases count,
{
    let s = tabbed(fields, count);
    let last = fields[count - 1];
    let before = tabbed(fields, (count - 1) as nat);
    if count > 2 {
        lemma_tabbed_like(fields, (count - 1) as nat);
    } else {
        assert(before == fields[0]);
        assert(lacks(fields[0], '\n'));
    }
    assert(lacks(last, '\n') && lacks(last, '\r'));
    assert forall|i: int| 0 <= i < s.len() implies #[trigger] s[i] != '\n' by {
        if i < before.len() {
            assert(s[i] == before[i]);
        } else if i > before.len() {
            assert(s[i] == last[i - before.len() - 1]);
        }
    }
    if last.len() > 0 {
        assert(s.last() == last[last.len() - 1]);
    } else {
        assert(s.last() == '\t');
    }
}

/// The lines of the entries are read back.
proof fn lemma_entries(m: ManifestView, lines: Seq<Seq<char>>, count: int)
    requires
        lines == manifest_lines(m),
        0 <= count <= m.entries.len(),
    ensures
        entries_upto(lines, 12 + count) == Ok::<Seq<EntryView>, Seq<char>>(m.entries.take(count)),
    decreases count,
{
    if count == 0 {
        assert(m.entries.take(0) =~= Seq::empty());
    } else {
        lemma_entries(m, lines, count - 1);
        let e = m.entries[count - 1];
        lemma_entry(e);
        assert(lines[12 + count - 1] == entry_line(e));
        assert(m.entries.take(count - 1).push(e) =~= m.entries.take(count));
    }
}

proof fn lemma_head_lines_like(m: ManifestView)
    ensures
        forall|i: int| 0 <= i < 12 ==> line_like(#[trigger] head_lines(m)[i]),
{
    lemma_keys();
    law_encoded_field_decodes(m.source_archive);
    lemma_number_plain(m.archive_size);
    lemma_number_plain(m.archive_hash);
    lemma_number_plain(m.alignment as u64);
    lemma_number_plain(m.version as u64);
    lemma_number_plain(m.revision as u64);
    lemma_number_plain(m.update_date_time);
    lemma_bool_text(m.has_toc);
    lemma_bool_text(m.has_itoc);
    lemma_bool_text(m.direct_itoc);
    lemma_bool_text(m.p5r);
    lemma_pair_line_like("source"@, encoded(m.source_archive));
    lemma_pair_line_like("archive_size"@, numeral(m.archive_size as nat, 10));
    lemma_pair_line_like("archive_hash"@, hash_text(m.archive_hash));
    lemma_pair_line_like("alignment"@, numeral(m.alignment as nat, 10));
    lemma_pair_line_like("has_toc"@, bool_text(m.has_toc));
    lemma_pair_line_like("has_itoc"@, bool_text(m.has_itoc));
    lemma_pair_line_like("direct_itoc"@, bool_text(m.direct_itoc));
    lemma_pair_line_like("p5r"@, bool_text(m.p5r));
    lemma_pair_line_like("version"@, numeral(m.version as nat, 10));
    lemma_pair_line_like("revision"@, numeral(m.revision as nat, 10));
    lemma_pair_line_like("update_date_time"@, numeral(m.update_date_time as nat, 10));
}

/// The lines of a manifest are taken apart again.
proof fn lemma_manifest_lines(m: ManifestView)
    ensures
        lines_of(manifest_text(m)) == manifest_lines(m),
{
    let lines = manifest_lines(m);
    lemma_head_lines_like(m);
    assert forall|i: int| 0 <= i < lines.len() implies line_like(#[trigger] lines[i]) by {
        if i < 12 {
            assert(lines[i] == head_lines(m)[i]);
        } else {
            lemma_entry(m.entries[i - 12]);
            assert(lines[i] == entry_line(m.entries[i - 12]));
        }
    }
    lemma_lines_apart(lines, 0);
    assert(lines.skip(0) =~= lines);
}

/// A manifest that names an index, and no direct ITOC without an ITOC, is read
/// back from its text exactly.
pub proof fn law_manifest_roundtrip(m: ManifestView)
    requires
        m.has_toc || m.has_itoc,
        m.direct_itoc ==> m.has_itoc,
    ensures
        manifest_of(manifest_text(m)) == Ok::<ManifestView, Seq<char>>(m),
{
    let lines = manifest_lines(m);
    lemma_manifest_lines(m);
    lemma_head(m, lines);
    lemma_entries(m, lines, m.entries.len() as int);
    assert(m.entries.take(m.entries.len() as int) =~= m.entries);
    let read = manifest_of(manifest_text(m))->Ok_0;
    assert(read =~= m);
}

/// Lines behind others are read as they are alone.
proof fn lemma_lines_behind(a: Seq<char>, b: Seq<char>, k: int)
    requires
        0 <= k <= b.len(),
    ensures
        lines_from(a + b, a.len() + k) == lines_from(b, k),
    decreases b.len() - k,
{
    if k < b.len() {
        let t = a + b;
        let n = a.len() as int;
        let end = find_from(b, '\n', k);
        lemma_find_from(b, '\n', k);
        assert forall|i: int| n + k <= i < n + end implies #[trigger] t[i] != '\n' by {
            assert(t[i] == b[i - n]);
        }
        lemma_find_from_is(t, '\n', n + k, n + end);
        assert(t.subrange(n + k, n + end) =~= b.subrange(k, end));
        if end < b.len() {
            lemma_lines_behind(a, b, end + 1);
        }
    }
}

/// A line ends at a line feed, with or without a carriage return before it; the last
/// one needs no end.
pub proof fn law_lines_end_at_line_feeds(line: Seq<char>, rest: Seq<char>)
    requires
        lacks(line, '\n'),
        line.len() > 0 ==> line.last() != '\r',
    ensures
        lines_of(line + seq!['\n'] + rest) == seq![line] + lines_of(rest),
        lines_of(line + seq!['\r', '\n'] + rest) == seq![line] + lines_of(rest),
        line.len() > 0 ==> lines_of(line) == seq![line],
        lines_of(Seq::empty()).len() == 0,
{
    let n = line.len() as int;
    let short = line + seq!['\n'];
    let long = line + seq!['\r', '\n'];
    let s = short + rest;
    let t = long + rest;
    assert forall|i: int| 0 <= i < n implies #[trigger] s[i] != '\n' by {
        assert(s[i] == line[i]);
    }
    assert forall|i: int| 0 <= i < n + 1 implies #[trigger] t[i] != '\n' by {
        if i < n {
            assert(t[i] == line[i]);
        }
    }
    lemma_find_from_is(s, '\n', 0, n);
    lemma_find_from_is(t, '\n', 0, n + 1);
    lemma_find_from_is(line, '\n', 0, n);
    assert(s.subrange(0, n) =~= line);
    assert(t.subrange(0, n + 1) =~= line.push('\r'));
    assert(line.push('\r').drop_last() =~= line);
    assert(line.subrange(0, n) =~= line);
    lemma_lines_behind(short, rest, 0);
    lemma_lines_behind(long, rest, 0);
}

/// Empty lines are passed over.
pub proof fn law_empty_lines_are_passed_over(m: ManifestView)
    requires
        m.has_toc || m.has_itoc,
        m.direct_itoc ==> m.has_itoc,
    ensures
        manifest_of(manifest_text(m) + seq!['\n']) == Ok::<ManifestView, Seq<char>>(m),
{
    let lines = manifest_lines(m);
    let blank = Seq::<char>::empty();
    let more = lines.push(blank);
    lemma_head_lines_like(m);
    assert forall|i: int| 0 <= i < more.len() implies line_like(#[trigger] more[i]) by {
        if i < 12 {
            assert(more[i] == head_lines(m)[i]);
        } else if i < lines.len() {
            lemma_entry(m.entries[i - 12]);
            assert(more[i] == entry_line(m.entries[i - 12]));
        }
    }
    lemma_lines_apart(more, 0);
    assert(more.skip(0) =~= more);
    lemma_unlines_same(lines, more, lines.len());
    assert(unlines(more, more.len()) =~= manifest_text(m) + seq!['\n']);
    lemma_head(m, more);
    lemma_entries(m, lines, m.entries.len() as int);
    lemma_entries_same(lines, more, lines.len() as int);
    assert(m.entries.take(m.entries.len() as int) =~= m.entries);
    let read = manifest_of(manifest_text(m) + seq!['\n'])->Ok_0;
    assert(read =~= m);
}

proof fn lemma_unlines_same(a: Seq<Seq<char>>, b: Seq<Seq<char>>, count: nat)
    requires
        count <= a.len(),
        count <= b.len(),
        forall|i: int| 0 <= i < count ==> #[trigger] a[i] == b[i],
    ensures
        unlines(a, count) == unlines(b, count),
    decreases count,
{
    if count > 0 {
        lemma_unlines_same(a, b, (count - 1) as nat);
        assert(a[count - 1] == b[count - 1]);
    }
}

proof fn lemma_entries_same(a: Seq<Seq<char>>, b: Seq<Seq<char>>, end: int)
    requires
        end <= a.len(),
        end <= b.len(),
        forall|i: int| 0 <= i < end ==> #[trigger] a[i] == b[i],
    ensures
        entries_upto(a, end) == entries_upto(b, end),
    decreases end,
{
    if end > 12 {
        lemma_entries_same(a, b, end - 1);
        assert(a[end - 1] == b[end - 1]);
    }
}

/// A manifest that is read names an index, and a direct index by ID only with an
/// index by ID.
pub proof fn law_manifests_that_are_read_name_an_index(text: Seq<char>)
    ensures
        manifest_of(text) matches Ok(m) ==> (m.has_toc || m.has_itoc) && (m.direct_itoc
            ==> m.has_itoc),
{
}

} // verus!
