//! What is read of a table, told by its bytes.

use vstd::arithmetic::power::pow;
use vstd::prelude::*;
use vstd::utf8::{decode_utf8, encode_utf8, encode_utf8_decode_utf8};

use crate::cpk::encrypt::table::{
    law_cipher_applies_key_powers, law_table_cipher_is_symmetric, table_cipher, utf_signature,
};
use crate::cpk::header::{
    chunk_at, chunk_kind, number_of, table_of, ChunkError, CpkChunkKind, TableView,
};
use crate::schema::columns::{column_at, column_type, columns_of, Column};
use crate::schema::error::TableError;
use crate::schema::header::table_header;
use crate::schema::rows::{cell_value, stored_width, RowValue};
use crate::schema::strings::{lemma_zero_from_is, pool_strings, string_begins};
use crate::utils::bytes::{
    be16, be32, be64, be_u16, be_u32, be_u64, group_stored_widths, law_numbers_are_written_as_read,
    le64, lemma_be16_read, lemma_be32_read, lemma_be64_read, lemma_le64_read, stands_at,
};
use crate::utils::text::shift_jis_text;

verus! {

broadcast use group_stored_widths;

/// The table with the byte at each place `i` changed by the `i`-th key byte.
pub open spec fn scrambled(table: Seq<u8>) -> Seq<u8> {
    Seq::new(
        table.len(),
        |i: int| table[i] ^ ((0x5f * pow(0x15, i as nat) % 0x100) as u8),
    )
}

/// The kinds of chunks are spelled by their first four bytes.
pub proof fn law_kinds_are_spelled(s: Seq<u8>)
    ensures
        s == seq![0x43u8, 0x50u8, 0x4bu8, 0x20u8] ==> chunk_kind(s) is Cpk,
        s == seq![0x54u8, 0x4fu8, 0x43u8, 0x20u8] ==> chunk_kind(s) is Toc,
        s == seq![0x49u8, 0x54u8, 0x4fu8, 0x43u8] ==> chunk_kind(s) is Itoc,
        s == seq![0x45u8, 0x54u8, 0x4fu8, 0x43u8] ==> chunk_kind(s) is Etoc,
        s == seq![0x47u8, 0x54u8, 0x4fu8, 0x43u8] ==> chunk_kind(s) is Gtoc,
        CpkChunkKind::Cpk.magic_bytes() == seq!['C' as u8, 'P' as u8, 'K' as u8, ' ' as u8],
        CpkChunkKind::Toc.magic_bytes() == seq!['T' as u8, 'O' as u8, 'C' as u8, ' ' as u8],
        CpkChunkKind::Itoc.magic_bytes() == seq!['I' as u8, 'T' as u8, 'O' as u8, 'C' as u8],
        CpkChunkKind::Etoc.magic_bytes() == seq!['E' as u8, 'T' as u8, 'O' as u8, 'C' as u8],
        CpkChunkKind::Gtoc.magic_bytes() == seq!['G' as u8, 'T' as u8, 'O' as u8, 'C' as u8],
{
}

/// A chunk is its magic, a marker of four bytes, the size of its table from the
/// lowest byte up, and the table. It is read as the table as it stands there
/// where the marker begins with anything but zero; where it begins with zero,
/// every byte of the table is changed by its key byte.
pub proof fn law_chunks_hold_plain_and_encrypted_tables(
    stream: Seq<u8>,
    at: int,
    magic: Seq<u8>,
    marker: Seq<u8>,
    table: Seq<u8>,
)
    requires
        0 <= at,
        magic.len() == 4,
        marker.len() == 4,
        0x20 <= table.len() <= usize::MAX,
        table.take(4) == seq![0x40u8, 0x55u8, 0x54u8, 0x46u8],
        magic == seq![0x43u8, 0x50u8, 0x4bu8, 0x20u8] ==> table.len() + 0x10 <= 0x800,
        stands_at(
            stream,
            at,
            magic + marker + le64(table.len() as u64) + if marker[0] == 0 {
                scrambled(table)
            } else {
                table
            },
        ),
    ensures
        chunk_at(stream, at) == Ok::<(CpkChunkKind, Seq<u8>), ChunkError>(
            (chunk_kind(magic), table),
        ),
{
    let stored = if marker[0] == 0 {
        scrambled(table)
    } else {
        table
    };
    let size = le64(table.len() as u64);
    let whole = magic + marker + size + stored;
    let n = table.len() as int;
    let piece = stream.subrange(at, at + whole.len());
    assert(piece == whole);
    assert(whole.len() == 16 + n);
    assert(stream.subrange(at, at + 4) =~= magic) by {
        assert forall|i: int| 0 <= i < 4 implies stream[at + i] == magic[i] by {
            assert(piece[i] == whole[i]);
        }
    }
    assert(stream[at + 4] == marker[0]) by {
        assert(piece[4] == whole[4]);
    }
    assert(stream.subrange(at + 8, at + 16) =~= size) by {
        assert forall|i: int| 0 <= i < 8 implies stream[at + 8 + i] == size[i] by {
            assert(piece[8 + i] == whole[8 + i]);
        }
    }
    lemma_le64_read(stream, at + 8, n as u64);
    assert(stream.subrange(at + 16, at + 16 + n) =~= stored) by {
        assert forall|i: int| 0 <= i < n implies stream[at + 16 + i] == stored[i] by {
            assert(piece[16 + i] == whole[16 + i]);
        }
    }
    assert(scrambled(table) =~= table_cipher(table)) by {
        assert forall|i: int| 0 <= i < n implies scrambled(table)[i] == #[trigger] table_cipher(
            table,
        )[i] by {
            law_cipher_applies_key_powers(table, i);
        }
    }
    law_table_cipher_is_symmetric(table);
    assert(utf_signature() =~= seq![0x40u8, 0x55u8, 0x54u8, 0x46u8]);
    assert(table.subrange(0, 4) =~= table.take(4));
    assert(utf_signature().is_prefix_of(table));
    let kind = chunk_kind(magic);
    if kind is Cpk {
        assert(magic =~= seq![0x43u8, 0x50u8, 0x4bu8, 0x20u8]);
    }
}

/// The flag byte says that the column has a name.
pub open spec fn flag_named(flag: u8) -> bool {
    flag as int / 0x10 % 2 == 1
}

/// The flag byte says that the column has a value in the schema.
pub open spec fn flag_constant(flag: u8) -> bool {
    flag as int / 0x20 % 2 == 1
}

/// The flag byte says that the rows have values in the column.
pub open spec fn flag_stored(flag: u8) -> bool {
    flag as int / 0x40 % 2 == 1
}

/// The number of the column's type in the flag byte.
pub open spec fn flag_code(flag: u8) -> int {
    flag as int % 0x10
}

/// Bytes of a value of the type with this number.
pub open spec fn value_size(code: int) -> int {
    if code < 0 || code > 12 {
        0
    } else if code <= 1 {
        1
    } else if code <= 3 {
        2
    } else if code <= 5 || code == 8 || code == 10 {
        4
    } else if code == 12 {
        16
    } else {
        8
    }
}

/// Bytes of a schema entry with this flag byte: the byte itself, the place of the
/// name, and the value.
pub open spec fn entry_size(flag: u8) -> int {
    1 + (if flag_named(flag) {
        4int
    } else {
        0
    }) + if flag_constant(flag) {
        value_size(flag_code(flag))
    } else {
        0
    }
}

/// Where the schema entry of the column `j` begins.
pub open spec fn entry_at(s: Seq<u8>, j: nat) -> int
    decreases j,
{
    if j == 0 {
        0x20
    } else {
        entry_at(s, (j - 1) as nat) + entry_size(s[entry_at(s, (j - 1) as nat)])
    }
}

/// Where the value in the schema entry of the column `j` begins: behind the place
/// of the name.
pub open spec fn constant_at(s: Seq<u8>, j: nat) -> int {
    entry_at(s, j) + if flag_named(s[entry_at(s, j)]) {
        5int
    } else {
        1
    }
}

/// Where the value of the column `j` begins in a row: behind those of the columns
/// before it that rows have values in.
pub open spec fn cell_at(s: Seq<u8>, j: nat) -> int
    decreases j,
{
    if j == 0 {
        0
    } else {
        let flag = s[entry_at(s, (j - 1) as nat)];
        cell_at(s, (j - 1) as nat) + if flag_stored(flag) {
            value_size(flag_code(flag))
        } else {
            0
        }
    }
}

/// The bytes spell the value, which is of the type with this number. Numbers stand
/// with their highest byte first, negative ones as what is missing to the next
/// power of two.
pub open spec fn spells(value: RowValue, code: int, bytes: Seq<u8>) -> bool {
    match value {
        RowValue::Absent => false,
        RowValue::Byte(v) => code == 0 && bytes == seq![v],
        RowValue::SByte(v) => code == 1 && bytes == seq![(if v < 0 {
            v + 0x100
        } else {
            v as int
        }) as u8],
        RowValue::UInt16(v) => code == 2 && bytes == be16(v),
        RowValue::Int16(v) => code == 3 && bytes == be16(
            (if v < 0 {
                v + 0x1_0000
            } else {
                v as int
            }) as u16,
        ),
        RowValue::UInt32(v) => code == 4 && bytes == be32(v),
        RowValue::Int32(v) => code == 5 && bytes == be32(
            (if v < 0 {
                v + 0x1_0000_0000
            } else {
                v as int
            }) as u32,
        ),
        RowValue::UInt64(v) => code == 6 && bytes == be64(v),
        RowValue::Int64(v) => code == 7 && bytes == be64(
            (if v < 0 {
                v + 0x1_0000_0000_0000_0000
            } else {
                v as int
            }) as u64,
        ),
        RowValue::Single(v) => code == 8 && bytes == be32(v),
        RowValue::Double(v) => code == 9 && bytes == be64(v),
        RowValue::String(v) => code == 10 && bytes == be32(v),
        RowValue::Data(d) => code == 11 && bytes == be32(d.offset) + be32(d.length),
        RowValue::Guid(a, b) => code == 12 && bytes == be64(a) + be64(b),
    }
}

proof fn lemma_flags(b: u8)
    ensures
        (b & 0xf0) & 0x10 == 0x10 <==> flag_named(b),
        (b & 0xf0) & 0x20 == 0x20 <==> flag_constant(b),
        (b & 0xf0) & 0x40 == 0x40 <==> flag_stored(b),
        (b & 0x0f) as int == flag_code(b),
        0 <= flag_code(b) < 16,
        column_type(flag_code(b)).width() == value_size(flag_code(b)),
{
    assert((b & 0xf0) & 0x10 == 0x10 <==> b / 0x10 % 2 == 1) by (bit_vector);
    assert((b & 0xf0) & 0x20 == 0x20 <==> b / 0x20 % 2 == 1) by (bit_vector);
    assert((b & 0xf0) & 0x40 == 0x40 <==> b / 0x40 % 2 == 1) by (bit_vector);
    assert(b & 0x0f == b % 0x10) by (bit_vector);
}

proof fn lemma_signed(a: u8, b: u16, c: u32, d: u64)
    ensures
        (if (a as i8) < 0 {
            (a as i8) + 0x100
        } else {
            (a as i8) as int
        }) == a,
        (if (b as i16) < 0 {
            (b as i16) + 0x1_0000
        } else {
            (b as i16) as int
        }) == b,
        (if (c as i32) < 0 {
            (c as i32) + 0x1_0000_0000
        } else {
            (c as i32) as int
        }) == c,
        (if (d as i64) < 0 {
            (d as i64) + 0x1_0000_0000_0000_0000
        } else {
            (d as i64) as int
        }) == d,
{
    assert((a as i8) < 0 ==> (a as i8) + 0x100 == a) by (bit_vector);
    assert((a as i8) >= 0 ==> (a as i8) == a) by (bit_vector);
    assert((b as i16) < 0 ==> (b as i16) + 0x1_0000 == b) by (bit_vector);
    assert((b as i16) >= 0 ==> (b as i16) == b) by (bit_vector);
    assert((c as i32) < 0 ==> (c as i32) + 0x1_0000_0000 == c) by (bit_vector);
    assert((c as i32) >= 0 ==> (c as i32) == c) by (bit_vector);
    assert((d as i64) < 0 ==> (d as i64) + 0x1_0000_0000_0000_0000 == d) by (bit_vector);
    assert((d as i64) >= 0 ==> (d as i64) == d) by (bit_vector);
}

/// A value is spelled by the bytes that it is read from.
pub proof fn law_values_are_spelled(code: int, s: Seq<u8>, at: int)
    requires
        0 <= code <= 12,
        0 <= at,
        at + value_size(code) <= s.len(),
    ensures
        spells(cell_value(column_type(code), s, at), code, s.subrange(at, at + value_size(code))),
{
    let bytes = s.subrange(at, at + value_size(code));
    law_numbers_are_written_as_read(s, at);
    lemma_signed(s[at], be_u16(s, at), be_u32(s, at), be_u64(s, at));
    if code <= 1 {
        assert(bytes =~= seq![s[at]]);
    } else if code == 11 {
        law_numbers_are_written_as_read(s, at + 4);
        assert(bytes =~= s.subrange(at, at + 4) + s.subrange(at + 4, at + 8));
    } else if code == 12 {
        law_numbers_are_written_as_read(s, at + 8);
        assert(bytes =~= s.subrange(at, at + 8) + s.subrange(at + 8, at + 16));
    }
}

/// The columns of a schema are read from their entries, one behind the other.
proof fn lemma_columns(s: Seq<u8>, count: nat, j: nat)
    requires
        columns_of(s, count) is Ok,
        j < count,
    ensures
        ({
            let (columns, end) = columns_of(s, count)->Ok_0;
            &&& columns.len() == count
            &&& end == entry_at(s, count)
            &&& 0x20 <= entry_at(s, j) < entry_at(s, j + 1) <= end <= s.len()
            &&& column_at(s, entry_at(s, j)) == Ok::<(Column, int), TableError>(
                (columns[j as int], entry_at(s, j + 1)),
            )
            &&& columns[j as int].flag.byte == s[entry_at(s, j)]
        }),
    decreases count,
{
    let last = (count - 1) as nat;
    lemma_columns_count(s, last);
    if j < last {
        lemma_columns(s, last, j);
        lemma_entry(s, last);
    } else {
        lemma_entry(s, last);
    }
}

proof fn lemma_columns_count(s: Seq<u8>, count: nat)
    requires
        columns_of(s, count) is Ok,
    ensures
        columns_of(s, count)->Ok_0.0.len() == count,
        columns_of(s, count)->Ok_0.1 == entry_at(s, count),
        entry_at(s, count) >= 0x20,
    decreases count,
{
    if count > 0 {
        lemma_columns_count(s, (count - 1) as nat);
        lemma_entry(s, (count - 1) as nat);
    }
}

proof fn lemma_entry(s: Seq<u8>, j: nat)
    requires
        column_at(s, entry_at(s, j)) is Ok,
        entry_at(s, j) >= 0x20,
    ensures
        column_at(s, entry_at(s, j))->Ok_0.1 == entry_at(s, j + 1),
        column_at(s, entry_at(s, j))->Ok_0.0.flag.byte == s[entry_at(s, j)],
        entry_at(s, j) < entry_at(s, j + 1) <= s.len(),
{
    lemma_flags(s[entry_at(s, j)]);
}

proof fn lemma_cells(s: Seq<u8>, columns: Seq<Column>, count: nat)
    requires
        count <= columns.len(),
        forall|j: int| 0 <= j < count ==> (#[trigger] columns[j]).flag.byte == s[entry_at(s, j as nat)],
    ensures
        stored_width(columns, count) == cell_at(s, count),
        count < columns.len() && columns[count as int].flag.byte == s[entry_at(s, count)] ==> cell_at(
            s,
            count + 1,
        ) == stored_width(columns, count + 1),
        cell_at(s, count) >= 0,
    decreases count,
{
    if count > 0 {
        lemma_cells(s, columns, (count - 1) as nat);
        lemma_flags(s[entry_at(s, (count - 1) as nat)]);
        assert(columns[count - 1].flag.byte == s[entry_at(s, (count - 1) as nat)]);
    }
    if count < columns.len() {
        lemma_flags(s[entry_at(s, count)]);
    }
}

proof fn lemma_cells_grow(s: Seq<u8>, few: nat, many: nat)
    requires
        few <= many,
    ensures
        cell_at(s, few) <= cell_at(s, many),
    decreases many,
{
    if few < many {
        lemma_cells_grow(s, few, (many - 1) as nat);
    }
}

/// The fields of a table's header stand at fixed places, with their highest bytes
/// first. The table ends where the header says, whatever stands behind.
pub proof fn law_header_fields_stand_at_their_places(alloc: Seq<u8>)
    requires
        table_of(alloc) is Ok,
    ensures
        ({
            let t = table_of(alloc)->Ok_0;
            let h = t.header;
            &&& alloc.take(4) == seq!['@' as u8, 'U' as u8, 'T' as u8, 'F' as u8]
            &&& 0x20 <= t.bytes.len() <= alloc.len()
            &&& t.bytes == alloc.take(t.bytes.len() as int)
            &&& stands_at(alloc, 0x04, be32((t.bytes.len() - 8) as u32))
            &&& t.bytes.len() - 8 <= u32::MAX
            &&& alloc[8] == h.marker
            &&& alloc[9] == 1 <==> h.string_encoding is UTF8
            &&& stands_at(alloc, 0x0a, be16(h.rows_field))
            &&& stands_at(alloc, 0x0c, be32(h.strings_field))
            &&& stands_at(alloc, 0x10, be32(h.data_field))
            &&& stands_at(alloc, 0x14, be32(h.name_field))
            &&& stands_at(alloc, 0x18, be16(h.columns_field))
            &&& stands_at(alloc, 0x1a, be16(h.row_size_field))
            &&& stands_at(alloc, 0x1c, be32(h.rows_count_field))
            &&& t.columns.len() == h.columns_field
            &&& t.rows.len() == h.rows_count_field
            &&& 0x20 <= h.rows_field + 8 <= h.strings_field + 8 <= h.data_field + 8 <= t.bytes.len()
            &&& h.rows_field + h.row_size_field * h.rows_count_field <= h.strings_field
            &&& entry_at(t.bytes, t.columns.len()) <= h.rows_field + 8
            &&& cell_at(t.bytes, t.columns.len()) <= h.row_size_field
        }),
{
    let t = table_of(alloc)->Ok_0;
    let s = t.bytes;
    law_numbers_are_written_as_read(alloc, 0x04);
    law_numbers_are_written_as_read(alloc, 0x0a);
    law_numbers_are_written_as_read(alloc, 0x0c);
    law_numbers_are_written_as_read(alloc, 0x10);
    law_numbers_are_written_as_read(alloc, 0x14);
    law_numbers_are_written_as_read(alloc, 0x18);
    law_numbers_are_written_as_read(alloc, 0x1a);
    law_numbers_are_written_as_read(alloc, 0x1c);
    assert(alloc.take(4) =~= alloc.subrange(0, 4));
    assert(utf_signature() =~= seq!['@' as u8, 'U' as u8, 'T' as u8, 'F' as u8]);
    lemma_columns_count(s, t.header.columns_field as nat);
    assert forall|j: int| 0 <= j < t.columns.len() implies (#[trigger] t.columns[j]).flag.byte
        == s[entry_at(s, j as nat)] by {
        lemma_columns(s, t.columns.len(), j as nat);
    }
    lemma_cells(s, t.columns, t.columns.len());
}

/// The value of a row in a column. Where rows have values in the column, it is
/// spelled by the row's bytes; where they have none and the schema has a value, it
/// is spelled by the bytes behind the place of the column's name, in every row and
/// for every type; else there is none.
pub proof fn law_values_stand_in_rows_or_the_schema(alloc: Seq<u8>, row: int, j: int)
    requires
        table_of(alloc) is Ok,
        0 <= row < table_of(alloc)->Ok_0.rows.len(),
        0 <= j < table_of(alloc)->Ok_0.columns.len(),
    ensures
        ({
            let t = table_of(alloc)->Ok_0;
            let s = t.bytes;
            let flag = s[entry_at(s, j as nat)];
            let size = value_size(flag_code(flag));
            let here = t.header.rows_field + 8 + row * t.header.row_size_field + cell_at(s, j as nat);
            let there = constant_at(s, j as nat);
            &&& flag_stored(flag) && flag_code(flag) <= 12 ==> {
                &&& 0 <= here && here + size <= t.header.strings_field + 8
                &&& t.value_at(row, j) matches Some(v) && spells(
                    v,
                    flag_code(flag),
                    s.subrange(here, here + size),
                )
            }
            &&& !flag_stored(flag) && flag_constant(flag) ==> {
                &&& flag_code(flag) <= 12
                &&& 0 <= there && there + size <= t.header.rows_field + 8
                &&& t.value_at(row, j) matches Some(v) && spells(
                    v,
                    flag_code(flag),
                    s.subrange(there, there + size),
                )
            }
            &&& !flag_stored(flag) && !flag_constant(flag) ==> t.value_at(row, j) is None
        }),
{
    let t = table_of(alloc)->Ok_0;
    let s = t.bytes;
    let n = t.columns.len();
    let flag = s[entry_at(s, j as nat)];
    let code = flag_code(flag);
    let size = value_size(code);
    let width = t.header.row_size_field as int;
    let count = t.header.rows_count_field as int;
    let here = t.header.rows_field + 8 + row * width + cell_at(s, j as nat);
    law_header_fields_stand_at_their_places(alloc);
    lemma_columns(s, n, j as nat);
    lemma_flags(flag);
    assert forall|k: int| 0 <= k < n implies (#[trigger] t.columns[k]).flag.byte == s[entry_at(
        s,
        k as nat,
    )] by {
        lemma_columns(s, n, k as nat);
    }
    lemma_cells(s, t.columns, j as nat);
    lemma_cells_grow(s, (j + 1) as nat, n);
    let value = t.rows[row][j];
    if flag_stored(flag) {
        assert(t.columns[j].flag.row_stored());
        assert(value == cell_value(column_type(code), s, here));
        assert(row * width + width <= width * count) by (nonlinear_arith)
            requires
                0 <= row < count,
                width >= 0,
        ;
        assert(0 <= row * width) by (nonlinear_arith)
            requires
                0 <= row,
                width >= 0,
        ;
        if code <= 12 {
            assert(cell_at(s, (j + 1) as nat) == cell_at(s, j as nat) + size);
            law_values_are_spelled(code, s, here);
        }
    } else {
        assert(!t.columns[j].flag.row_stored());
        assert(value is Absent);
        if flag_constant(flag) {
            assert(t.columns[j].flag.has_default());
            assert(size > 0);
            law_values_are_spelled(code, s, constant_at(s, j as nat));
        }
    }
}

/// A string of a table stands in its pool, behind a zero or at the front, and
/// ends before the next zero. It is read by the encoding that the header tells.
pub proof fn law_strings_stand_in_the_pool(alloc: Seq<u8>, at: int, bytes: Seq<u8>, text: Seq<char>)
    requires
        table_of(alloc) is Ok,
        0 <= at,
        forall|i: int| 0 <= i < bytes.len() ==> #[trigger] bytes[i] != 0,
        ({
            let t = table_of(alloc)->Ok_0;
            let pool = t.bytes.subrange(t.header.strings_field + 8, t.header.data_field + 8);
            stands_at(pool, at, bytes.push(0)) && (at == 0 || pool[at - 1] == 0)
        }),
    ensures
        ({
            let t = table_of(alloc)->Ok_0;
            &&& t.strings.contains_key(at)
            &&& alloc[9] == 1 ==> t.strings[at] == decode_utf8(bytes)
            &&& alloc[9] == 1 && bytes == encode_utf8(text) ==> t.strings[at] == text
            &&& alloc[9] != 1 ==> t.strings[at] == shift_jis_text(bytes)
        }),
{
    let t = table_of(alloc)->Ok_0;
    let pool = t.bytes.subrange(t.header.strings_field + 8, t.header.data_field + 8);
    let n = bytes.len() as int;
    let piece = pool.subrange(at, at + n + 1);
    assert(bytes.push(0).len() == n + 1);
    assert(piece == bytes.push(0));
    assert(pool[at + n] == 0) by {
        assert(piece[n] == bytes.push(0)[n]);
    }
    assert forall|i: int| at <= i < at + n implies #[trigger] pool[i] != 0 by {
        assert(piece[i - at] == bytes.push(0)[i - at]);
        assert(bytes[i - at] != 0);
    }
    lemma_zero_from_is(pool, at, at + n);
    assert(pool.subrange(at, at + n) =~= bytes) by {
        assert forall|i: int| 0 <= i < n implies pool[at + i] == bytes[i] by {
            assert(piece[i] == bytes.push(0)[i]);
        }
    }
    assert(string_begins(pool, at));
    assert(pool_strings(pool, t.header.string_encoding)->Ok_0 == t.strings);
    encode_utf8_decode_utf8(text);
}

/// No string is found but where one begins.
pub proof fn law_strings_begin_behind_zeros(alloc: Seq<u8>, at: int)
    requires
        table_of(alloc) is Ok,
        table_of(alloc)->Ok_0.strings.contains_key(at),
    ensures
        ({
            let t = table_of(alloc)->Ok_0;
            let pool = t.bytes.subrange(t.header.strings_field + 8, t.header.data_field + 8);
            0 <= at < pool.len() && (at == 0 || pool[at - 1] == 0)
        }),
{
    let t = table_of(alloc)->Ok_0;
    let pool = t.bytes.subrange(t.header.strings_field + 8, t.header.data_field + 8);
    assert(pool_strings(pool, t.header.string_encoding)->Ok_0 == t.strings);
    assert(string_begins(pool, at));
}

/// The data of a value are the bytes of the data pool that it refers to, where the
/// table has them; a value of no bytes has no data.
pub proof fn law_data_stand_in_the_pool(t: TableView, row: int, name: Seq<char>)
    ensures
        match t.value_named(row, name) {
            Some(RowValue::Data(d)) => {
                let start = t.header.data_field + 8 + d.offset;
                &&& t.data_named(row, name) is Some <==> d.length > 0 && start + d.length
                    <= t.bytes.len()
                &&& t.data_named(row, name) matches Some(bytes) ==> bytes.len() == d.length
                    && stands_at(t.bytes, start, bytes)
            },
            _ => t.data_named(row, name) is None,
        },
{
}

/// The column `j` has a name, and its place in the pool holds this text.
pub open spec fn has_name(t: TableView, j: int, name: Seq<char>) -> bool {
    &&& flag_named(t.bytes[entry_at(t.bytes, j as nat)])
    &&& exists|at: u32|
        #![trigger be32(at)]
        stands_at(t.bytes, entry_at(t.bytes, j as nat) + 1, be32(at)) && t.strings.contains_key(
            at as int,
        ) && t.strings[at as int] == name
}

proof fn lemma_named(alloc: Seq<u8>, j: int, name: Seq<char>)
    requires
        table_of(alloc) is Ok,
        0 <= j < table_of(alloc)->Ok_0.columns.len(),
    ensures
        table_of(alloc)->Ok_0.named(j, name) <==> has_name(table_of(alloc)->Ok_0, j, name),
{
    let t = table_of(alloc)->Ok_0;
    let s = t.bytes;
    let entry = entry_at(s, j as nat);
    law_header_fields_stand_at_their_places(alloc);
    lemma_columns(s, t.columns.len(), j as nat);
    lemma_flags(s[entry]);
    let place = t.columns[j].string_offset;
    if flag_named(s[entry]) {
        law_numbers_are_written_as_read(s, entry + 1);
        assert(stands_at(s, entry + 1, be32(place)));
        if has_name(t, j, name) {
            let at = choose|at: u32|
                #![trigger be32(at)]
                stands_at(s, entry + 1, be32(at)) && t.strings.contains_key(at as int)
                    && t.strings[at as int] == name;
            lemma_be32_read(s, entry + 1, at);
            lemma_be32_read(s, entry + 1, place);
        }
    } else {
        assert(place == u32::MAX);
        if t.strings.contains_key(place as int) {
            law_strings_begin_behind_zeros(alloc, place as int);
        }
    }
}

proof fn lemma_index_from(alloc: Seq<u8>, name: Seq<char>, from: int)
    requires
        table_of(alloc) is Ok,
        0 <= from <= table_of(alloc)->Ok_0.columns.len(),
    ensures
        ({
            let t = table_of(alloc)->Ok_0;
            match t.index_from(name, from) {
                Some(j) => from <= j < t.columns.len() && has_name(t, j, name) && forall|i: int|
                    from <= i < j ==> !(#[trigger] has_name(t, i, name)),
                None => forall|i: int|
                    from <= i < t.columns.len() ==> !(#[trigger] has_name(t, i, name)),
            }
        }),
    decreases table_of(alloc)->Ok_0.columns.len() - from,
{
    let t = table_of(alloc)->Ok_0;
    if from < t.columns.len() {
        lemma_named(alloc, from, name);
        lemma_index_from(alloc, name, from + 1);
    }
}

/// A column is found by its name: the first one whose place of the name holds it.
pub proof fn law_columns_are_found_by_name(alloc: Seq<u8>, name: Seq<char>)
    requires
        table_of(alloc) is Ok,
    ensures
        ({
            let t = table_of(alloc)->Ok_0;
            match t.index_of(name) {
                Some(j) => 0 <= j < t.columns.len() && has_name(t, j, name) && forall|i: int|
                    0 <= i < j ==> !(#[trigger] has_name(t, i, name)),
                None => forall|i: int|
                    0 <= i < t.columns.len() ==> !(#[trigger] has_name(t, i, name)),
            }
        }),
{
    lemma_index_from(alloc, name, 0);
}

/// The number of a value is the one that its bytes spell: numbers from the highest
/// byte down. Types with a sign have no number where it is negative, and other
/// types have none.
pub proof fn law_numbers_are_spelled(value: RowValue, code: int, bytes: Seq<u8>)
    requires
        spells(value, code, bytes),
    ensures
        code == 0 || code == 1 && bytes[0] < 0x80 ==> number_of(value) == Some(bytes[0] as u64),
        code == 2 || code == 3 && bytes[0] < 0x80 ==> number_of(value) == Some(
            be_u16(bytes, 0) as u64,
        ),
        code == 4 || code == 5 && bytes[0] < 0x80 ==> number_of(value) == Some(
            be_u32(bytes, 0) as u64,
        ),
        code == 6 || code == 7 && bytes[0] < 0x80 ==> number_of(value) == Some(be_u64(bytes, 0)),
        (code == 1 || code == 3 || code == 5 || code == 7) && bytes[0] >= 0x80 ==> number_of(value)
            is None,
        code > 7 ==> number_of(value) is None,
{
    assert(bytes.subrange(0, bytes.len() as int) =~= bytes);
    match value {
        RowValue::UInt16(v) => {
            lemma_be16_read(bytes, 0, v);
        },
        RowValue::UInt32(v) => {
            lemma_be32_read(bytes, 0, v);
        },
        RowValue::UInt64(v) => {
            lemma_be64_read(bytes, 0, v);
        },
        RowValue::Int16(v) => {
            let w = (if v < 0 {
                v + 0x1_0000
            } else {
                v as int
            }) as u16;
            lemma_be16_read(bytes, 0, w);
            reveal(be16);
        },
        RowValue::Int32(v) => {
            let w = (if v < 0 {
                v + 0x1_0000_0000
            } else {
                v as int
            }) as u32;
            lemma_be32_read(bytes, 0, w);
            reveal(be32);
        },
        RowValue::Int64(v) => {
            let w = (if v < 0 {
                v + 0x1_0000_0000_0000_0000
            } else {
                v as int
            }) as u64;
            lemma_be64_read(bytes, 0, w);
            reveal(be32);
            reveal(be64);
        },
        _ => {},
    }
}

proof fn lemma_entries_grow(s: Seq<u8>, few: nat, many: nat)
    requires
        few <= many,
    ensures
        0x20 <= entry_at(s, few) <= entry_at(s, many),
        few < many ==> entry_at(s, few) + entry_size(s[entry_at(s, few)]) <= entry_at(s, many),
    decreases many,
{
    if few < many {
        lemma_entries_grow(s, few, (many - 1) as nat);
    } else if many > 0 {
        lemma_entries_grow(s, (few - 1) as nat, (many - 1) as nat);
    }
}

/// Each of the first `count` columns that has a value in the schema is of a known
/// type.
pub open spec fn kinds_are_known(s: Seq<u8>, count: nat) -> bool {
    forall|j: nat|
        j < count && flag_constant(s[#[trigger] entry_at(s, j)]) ==> flag_code(s[entry_at(s, j)])
            <= 12
}

proof fn lemma_columns_are_read(s: Seq<u8>, count: nat)
    requires
        entry_at(s, count) <= s.len(),
        kinds_are_known(s, count),
    ensures
        columns_of(s, count) is Ok,
    decreases count,
{
    if count > 0 {
        let last = (count - 1) as nat;
        lemma_entries_grow(s, last, count);
        lemma_columns_are_read(s, last);
        lemma_columns_count(s, last);
        lemma_flags(s[entry_at(s, last)]);
        assert(flag_constant(s[entry_at(s, last)]) ==> flag_code(s[entry_at(s, last)]) <= 12);
        assert(column_at(s, entry_at(s, last)) is Ok);
    }
}

/// A table is read where it is signed and whole, its sections follow each other, its
/// schema ends in front of the rows and the values of a row within it, its constants
/// are of known types, and its texts can be read.
pub proof fn law_sound_tables_are_read(alloc: Seq<u8>)
    requires
        ({
            let h = table_header(alloc);
            let s = alloc.take(h.size_field + 8);
            let count = h.columns_field as nat;
            &&& alloc.len() >= 0x20
            &&& alloc.take(4) == seq!['@' as u8, 'U' as u8, 'T' as u8, 'F' as u8]
            &&& h.size_field + 8 <= alloc.len()
            &&& 0x20 <= h.rows_field + 8 <= h.strings_field + 8 <= h.data_field + 8
                <= h.size_field + 8
            &&& h.rows_field + h.row_size_field * h.rows_count_field <= h.strings_field
            &&& entry_at(s, count) <= h.rows_field + 8
            &&& cell_at(s, count) <= h.row_size_field
            &&& kinds_are_known(s, count)
            &&& pool_strings(
                s.subrange(h.strings_field + 8, h.data_field + 8),
                h.string_encoding,
            ) is Ok
        }),
    ensures
        table_of(alloc) is Ok,
{
    let h = table_header(alloc);
    let s = alloc.take(h.size_field + 8);
    let count = h.columns_field as nat;
    assert(s =~= alloc.subrange(0, h.size_field + 8));
    assert(utf_signature() =~= seq!['@' as u8, 'U' as u8, 'T' as u8, 'F' as u8]);
    assert(alloc.take(4) =~= alloc.subrange(0, 4));
    assert(utf_signature().is_prefix_of(alloc));
    lemma_columns_are_read(s, count);
    lemma_columns_count(s, count);
    let columns = columns_of(s, count)->Ok_0.0;
    assert forall|j: int| 0 <= j < columns.len() implies (#[trigger] columns[j]).flag.byte
        == s[entry_at(s, j as nat)] by {
        lemma_columns(s, count, j as nat);
    }
    lemma_cells(s, columns, count);
}

} // verus!
