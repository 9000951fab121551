//! A serialised table reads back as what it was made of.

use vstd::prelude::*;
use vstd::utf8::{encode_utf8, encode_utf8_decode_utf8, encode_utf8_valid_utf8};

use crate::cpk::encrypt::table::utf_signature;
use crate::cpk::header::{table_of, TableView};
use crate::cpk::utf::{
    cell_bytes, data_cells, empty_pool, interned, lemma_column_in_pool, lemma_data_cells_grow,
    lemma_data_rows_grow, lemma_name_in_pool, lemma_text_in_pool, lemma_width_nonnegative,
    pool_cells, Cell, Pool, TableModel, UtfType,
};
use crate::schema::columns::{column_at, columns_of, Column, ColumnType, ColumnValue};
use crate::schema::error::TableError;
use crate::schema::header::{table_header, StringEncoding, TableHeader, HEADER_SIZE};
use crate::schema::rows::{cell_value, row_at, rows_of, stored_width, DataValue, RowValue};
use crate::schema::strings::{
    decodable, lemma_zero_from_is, pool_strings, string_begins, string_bytes, text_of,
    undecodable_at, zero_from,
};
use crate::utils::bytes::{
    be16, be32, group_stored_widths, lemma_be16_read, lemma_be32_read, lemma_be64_read,
    lemma_stands_within, stands_at,
};
use crate::utils::text::{
    before_nul, lemma_before_nul, lemma_encode_append, lemma_no_nul_bytes, lemma_scalar_bytes,
    lemma_zero_byte, no_nul,
};

verus! {

broadcast use group_stored_widths;

/// `text` stands in the pool where its offset says, zero-terminated.
pub open spec fn placed(p: Pool, text: Seq<char>) -> bool {
    let at = p.offsets[text] as int;
    let bytes = encode_utf8(text);
    &&& string_begins(p.bytes, at)
    &&& at + bytes.len() < p.bytes.len()
    &&& p.bytes.subrange(at, at + bytes.len()) == bytes
    &&& p.bytes[at + bytes.len()] == 0
    &&& at == 0 ==> text.len() == 0
}

/// The part of `text` from `k` on stands at `at`, and begins there: at the front
/// of the text, or behind a NUL in it.
pub open spec fn begun_at(p: Pool, text: Seq<char>, k: int, at: int) -> bool {
    &&& p.offsets.contains_key(text)
    &&& 0 <= k <= text.len()
    &&& k > 0 ==> text[k - 1] == '\0'
    &&& at == p.offsets[text] + encode_utf8(text.take(k)).len()
}

/// A string begins at `at` only if part of some text begins there.
pub open spec fn begun_by_text(p: Pool, at: int) -> bool {
    exists|text: Seq<char>, k: int| begun_at(p, text, k, at)
}

/// The strings of the pool are exactly the texts that were put in, up to their
/// first NUL, and what such a NUL cuts off.
pub open spec fn pool_sound(p: Pool) -> bool {
    &&& 0 < p.bytes.len() <= usize::MAX
    &&& p.bytes.last() == 0
    &&& p.offsets.contains_key(Seq::empty())
    &&& p.offsets[Seq::empty()] == 0
    &&& forall|text: Seq<char>| #[trigger] p.offsets.contains_key(text) ==> placed(p, text)
    &&& forall|at: int| #[trigger] string_begins(p.bytes, at) ==> begun_by_text(p, at)
}

proof fn lemma_empty_pool_sound()
    ensures
        pool_sound(empty_pool()),
{
    let p = empty_pool();
    let nothing = Seq::<char>::empty();
    assert(encode_utf8(nothing).len() == 0);
    assert(p.bytes.subrange(0, 0) =~= encode_utf8(nothing));
    assert forall|at: int| #[trigger] string_begins(p.bytes, at) implies begun_by_text(p, at) by {
        assert(nothing.take(0) =~= nothing);
        assert(begun_at(p, nothing, 0, at));
    }
}

proof fn lemma_interned_sound(p: Pool, text: Seq<char>)
    requires
        pool_sound(p),
        interned(p, text).bytes.len() <= usize::MAX,
    ensures
        pool_sound(interned(p, text)),
{
    if !p.offsets.contains_key(text) {
        let q = interned(p, text);
        let n = p.bytes.len() as int;
        let enc = encode_utf8(text);
        assert(q.bytes.len() == n + enc.len() + 1);
        assert(q.bytes.subrange(n, n + enc.len()) =~= enc);
        assert(q.bytes[n + enc.len()] == 0);
        assert(q.bytes[n - 1] == p.bytes.last());
        assert forall|t: Seq<char>| #[trigger] q.offsets.contains_key(t) implies placed(q, t) by {
            if t != text {
                assert(p.offsets.contains_key(t));
                assert(placed(p, t));
                let at = p.offsets[t] as int;
                let bytes = encode_utf8(t);
                assert(q.bytes.subrange(at, at + bytes.len()) =~= p.bytes.subrange(
                    at,
                    at + bytes.len(),
                ));
            }
        }
        assert forall|at: int| #[trigger] string_begins(q.bytes, at) implies begun_by_text(
            q,
            at,
        ) by {
            if at < n {
                assert(string_begins(p.bytes, at));
                assert(begun_by_text(p, at));
                let (t, k) = choose|t: Seq<char>, k: int| begun_at(p, t, k, at);
                assert(begun_at(q, t, k, at));
            } else if at == n {
                assert(text.take(0) =~= Seq::empty());
                assert(encode_utf8(text.take(0)).len() == 0);
                assert(begun_at(q, text, 0, at));
            } else {
                assert(q.bytes[at - 1] == enc[at - 1 - n]);
                let k = lemma_zero_byte(text, at - 1 - n);
                assert(begun_at(q, text, k + 1, at));
            }
        }
    }
}

proof fn lemma_pool_cells_sound(p: Pool, row: Seq<Cell>, count: nat)
    requires
        pool_sound(p),
        pool_cells(p, row, count).bytes.len() <= usize::MAX,
    ensures
        pool_sound(pool_cells(p, row, count)),
    decreases count,
{
    if count > 0 {
        lemma_pool_cells_sound(p, row, (count - 1) as nat);
        match row[count - 1] {
            Cell::Text(text) => {
                lemma_interned_sound(pool_cells(p, row, (count - 1) as nat), text);
            },
            _ => {},
        }
    }
}

impl TableModel {
    /// No name of a column holds a NUL.
    pub open spec fn plain(self) -> bool {
        forall|j: int| 0 <= j < self.columns.len() ==> no_nul(#[trigger] self.columns[j].name)
    }

    /// The columns that the table is read with.
    pub open spec fn read_columns(self) -> Seq<Column> {
        Seq::new(
            self.columns.len(),
            |j: int|
                Column {
                    flag: ColumnValue { byte: self.columns[j].kind.flag_byte() },
                    string_offset: self.pool().offsets[self.columns[j].name] as u32,
                    default: None,
                },
        )
    }

    /// The value that is read for a stored one.
    pub open spec fn read_value(self, r: int, c: int) -> RowValue {
        match self.rows[r][c] {
            Cell::UInt16(v) => RowValue::UInt16(v),
            Cell::UInt32(v) => RowValue::UInt32(v),
            Cell::UInt64(v) => RowValue::UInt64(v),
            Cell::Text(text) => RowValue::String(self.pool().offsets[text] as u32),
            Cell::Blob(bytes) => RowValue::Data(
                DataValue { offset: self.data_at(r, c) as u32, length: bytes.len() as u32 },
            ),
        }
    }

    /// The rows that are read.
    pub open spec fn read_rows(self) -> Seq<Seq<RowValue>> {
        Seq::new(
            self.rows.len(),
            |r: int| Seq::new(self.columns.len(), |c: int| self.read_value(r, c)),
        )
    }

    /// The header that is read.
    pub open spec fn read_header(self) -> TableHeader {
        TableHeader {
            size_field: (self.total() - 8) as u32,
            marker: 0,
            string_encoding: StringEncoding::UTF8,
            rows_field: (self.rows_start() - 8) as u16,
            strings_field: (self.strings_start() - 8) as u32,
            data_field: (self.data_start() - 8) as u32,
            name_field: self.pool().offsets[self.name] as u32,
            columns_field: self.columns.len() as u16,
            row_size_field: self.row_size() as u16,
            rows_count_field: self.rows.len() as u32,
        }
    }
}

proof fn lemma_pool_names_sound(m: TableModel, count: nat)
    requires
        count <= m.columns.len(),
        m.pool_names(count).bytes.len() <= usize::MAX,
    ensures
        pool_sound(m.pool_names(count)),
    decreases count,
{
    if count == 0 {
        lemma_empty_pool_sound();
        lemma_interned_sound(empty_pool(), m.name);
    } else {
        lemma_pool_names_sound(m, (count - 1) as nat);
        lemma_interned_sound(m.pool_names((count - 1) as nat), m.columns[count - 1].name);
    }
}

proof fn lemma_pool_cells_grow(p: Pool, row: Seq<Cell>, count: nat)
    ensures
        p.bytes.len() <= pool_cells(p, row, count).bytes.len(),
    decreases count,
{
    if count > 0 {
        lemma_pool_cells_grow(p, row, (count - 1) as nat);
    }
}

proof fn lemma_pool_rows_sound(m: TableModel, count: nat)
    requires
        count <= m.rows.len(),
        m.pool_rows(count).bytes.len() <= usize::MAX,
    ensures
        pool_sound(m.pool_rows(count)),
    decreases count,
{
    if count == 0 {
        lemma_pool_names_sound(m, m.columns.len());
    } else {
        let row = m.rows[count - 1];
        lemma_pool_cells_grow(m.pool_rows((count - 1) as nat), row, row.len());
        lemma_pool_rows_sound(m, (count - 1) as nat);
        lemma_pool_cells_sound(m.pool_rows((count - 1) as nat), row, row.len());
    }
}

/// The pool holds the part of a placed text where it begins, up to the next NUL.
proof fn lemma_placed_text(p: Pool, text: Seq<char>, k: int)
    requires
        placed(p, text),
        0 <= k <= text.len(),
    ensures
        ({
            let at = p.offsets[text] + encode_utf8(text.take(k)).len();
            let part = before_nul(text.skip(k));
            &&& string_bytes(p.bytes, at) == encode_utf8(part)
            &&& at <= zero_from(p.bytes, at) < p.bytes.len()
            &&& decodable(encode_utf8(part), StringEncoding::UTF8)
            &&& text_of(encode_utf8(part), StringEncoding::UTF8) == part
        }),
{
    let start = p.offsets[text] as int;
    let bytes = encode_utf8(text);
    let front = text.take(k);
    let rest = text.skip(k);
    let part = before_nul(rest);
    let at = start + encode_utf8(front).len();
    let size = encode_utf8(part).len() as int;
    lemma_encode_append(front, rest);
    assert(front + rest =~= text);
    lemma_before_nul(rest);
    let tail = rest.skip(part.len() as int);
    lemma_encode_append(part, tail);
    assert(part + tail =~= rest);
    lemma_no_nul_bytes(part);
    assert forall|i: int| 0 <= i < bytes.len() implies p.bytes[start + i] == bytes[i] by {
        assert(p.bytes.subrange(start, start + bytes.len())[i] == p.bytes[start + i]);
    }
    assert forall|i: int| at <= i < at + size implies #[trigger] p.bytes[i] != 0 by {
        assert(p.bytes[start + (i - start)] == bytes[i - start]);
        assert(bytes[i - start] == encode_utf8(part)[i - at]);
    }
    if tail.len() > 0 {
        assert(tail[0] == '\0');
        assert(encode_utf8(tail)[0] == 0) by {
            lemma_scalar_bytes(tail[0]);
        }
        assert(bytes[at + size - start] == encode_utf8(tail)[0]);
        assert(p.bytes[start + (at + size - start)] == bytes[at + size - start]);
    } else {
        assert(encode_utf8(tail).len() == 0);
    }
    assert(p.bytes[at + size] == 0);
    lemma_zero_from_is(p.bytes, at, at + size);
    assert(p.bytes.subrange(at, at + size) =~= encode_utf8(part)) by {
        assert forall|i: int| 0 <= i < size implies p.bytes[at + i] == encode_utf8(part)[i] by {
            assert(p.bytes[start + (at + i - start)] == bytes[at + i - start]);
        }
    }
    encode_utf8_valid_utf8(part);
    encode_utf8_decode_utf8(part);
}

/// The strings that a sound pool is read as.
proof fn lemma_pool_strings(p: Pool)
    requires
        pool_sound(p),
    ensures
        pool_strings(p.bytes, StringEncoding::UTF8) matches Ok(strings) && (forall|text: Seq<char>|
            #[trigger] p.offsets.contains_key(text) ==> strings.contains_key(
                p.offsets[text] as int,
            ) && strings[p.offsets[text] as int] == before_nul(text)),
{
    let e = StringEncoding::UTF8;
    assert forall|at: int| !undecodable_at(p.bytes, at, e) by {
        if string_begins(p.bytes, at) {
            assert(begun_by_text(p, at));
            let (text, k) = choose|t: Seq<char>, k: int| begun_at(p, t, k, at);
            lemma_placed_text(p, text, k);
        }
    }
    let strings = pool_strings(p.bytes, e)->Ok_0;
    assert forall|text: Seq<char>| #[trigger] p.offsets.contains_key(text) implies {
        &&& strings.contains_key(p.offsets[text] as int)
        &&& strings[p.offsets[text] as int] == before_nul(text)
    } by {
        assert(placed(p, text));
        lemma_placed_text(p, text, 0);
        assert(text.take(0) =~= Seq::empty());
        assert(encode_utf8(text.take(0)).len() == 0);
        assert(text.skip(0) =~= text);
    }
}

/// Only the empty text stands at offset zero.
pub proof fn lemma_zero_offset_is_empty(p: Pool, text: Seq<char>)
    requires
        pool_sound(p),
        p.offsets.contains_key(text),
    ensures
        p.offsets[text] == 0 <==> text.len() == 0,
{
    assert(placed(p, text));
    if text.len() == 0 {
        assert(text =~= Seq::<char>::empty());
    }
}

proof fn lemma_column_bytes_len(m: TableModel, count: nat)
    ensures
        m.column_bytes(count).len() == 5 * count,
    decreases count,
{
    if count > 0 {
        lemma_column_bytes_len(m, (count - 1) as nat);
    }
}

/// The schema entry of the column `j` stands behind the earlier ones.
proof fn lemma_column_piece(m: TableModel, j: int, count: nat)
    requires
        0 <= j < count,
    ensures
        stands_at(
            m.column_bytes(count),
            5 * j,
            seq![m.columns[j].kind.flag_byte()] + be32(
                m.pool().offsets[m.columns[j].name] as u32,
            ),
        ),
    decreases count,
{
    let piece = seq![m.columns[j].kind.flag_byte()] + be32(
        m.pool().offsets[m.columns[j].name] as u32,
    );
    lemma_column_bytes_len(m, (count - 1) as nat);
    lemma_column_bytes_len(m, count);
    if j < count - 1 {
        lemma_column_piece(m, j, (count - 1) as nat);
        assert(m.column_bytes(count).subrange(5 * j, 5 * j + 5) =~= m.column_bytes(
            (count - 1) as nat,
        ).subrange(5 * j, 5 * j + 5));
    } else {
        assert(m.column_bytes(count).subrange(5 * j, 5 * j + 5) =~= piece);
    }
}

proof fn lemma_row_bytes_len(m: TableModel, r: int, count: nat)
    requires
        0 <= r < m.rows.len(),
        m.row_shaped(r),
        count <= m.columns.len(),
    ensures
        m.row_bytes(r, count).len() == m.width(count),
    decreases count,
{
    if count > 0 {
        lemma_row_bytes_len(m, r, (count - 1) as nat);
        assert(m.rows[r][count - 1].kind() == m.columns[count - 1].kind);
    }
}

proof fn lemma_cell_piece(m: TableModel, r: int, c: int, count: nat)
    requires
        0 <= r < m.rows.len(),
        m.row_shaped(r),
        0 <= c < count <= m.columns.len(),
    ensures
        stands_at(
            m.row_bytes(r, count),
            m.width(c as nat),
            cell_bytes(m.rows[r][c], m.pool().offsets, m.data_at(r, c)),
        ),
    decreases count,
{
    let piece = cell_bytes(m.rows[r][c], m.pool().offsets, m.data_at(r, c));
    let at = m.width(c as nat);
    lemma_row_bytes_len(m, r, c as nat);
    lemma_row_bytes_len(m, r, (count - 1) as nat);
    lemma_row_bytes_len(m, r, count);
    if c < count - 1 {
        lemma_cell_piece(m, r, c, (count - 1) as nat);
        assert(m.row_bytes(r, count).subrange(at, at + piece.len()) =~= m.row_bytes(
            r,
            (count - 1) as nat,
        ).subrange(at, at + piece.len()));
    } else {
        assert(m.row_bytes(r, count).subrange(at, at + piece.len()) =~= piece);
    }
}

proof fn lemma_rows_bytes_len(m: TableModel, count: nat)
    requires
        m.shaped(),
        count <= m.rows.len(),
    ensures
        m.rows_bytes(count).len() == m.row_size() * count,
    decreases count,
{
    if count > 0 {
        lemma_rows_bytes_len(m, (count - 1) as nat);
        assert(m.row_shaped(count - 1));
        lemma_row_bytes_len(m, count - 1, m.columns.len());
        assert(m.row_size() * (count - 1) + m.row_size() == m.row_size() * count)
            by (nonlinear_arith);
    } else {
        assert(m.row_size() * 0 == 0);
    }
}

proof fn lemma_row_piece(m: TableModel, r: int, count: nat)
    requires
        m.shaped(),
        0 <= r < count <= m.rows.len(),
    ensures
        stands_at(m.rows_bytes(count), m.row_size() * r, m.row_bytes(r, m.columns.len())),
    decreases count,
{
    let piece = m.row_bytes(r, m.columns.len());
    let at = m.row_size() * r;
    assert(m.row_shaped(r));
    lemma_row_bytes_len(m, r, m.columns.len());
    lemma_rows_bytes_len(m, r as nat);
    lemma_rows_bytes_len(m, (count - 1) as nat);
    lemma_rows_bytes_len(m, count);
    if r < count - 1 {
        lemma_row_piece(m, r, (count - 1) as nat);
        assert(m.rows_bytes(count).subrange(at, at + piece.len()) =~= m.rows_bytes(
            (count - 1) as nat,
        ).subrange(at, at + piece.len()));
    } else {
        assert(m.rows_bytes(count).subrange(at, at + piece.len()) =~= piece);
    }
}

/// Where the five sections of a table stand.
pub proof fn lemma_sections(m: TableModel)
    requires
        m.fits(),
    ensures
        m.bytes().len() == m.total(),
        stands_at(m.bytes(), 0, m.header_bytes()),
        stands_at(m.bytes(), HEADER_SIZE as int, m.column_bytes(m.columns.len())),
        stands_at(m.bytes(), m.rows_start(), m.rows_bytes(m.rows.len())),
        stands_at(m.bytes(), m.strings_start(), m.pool().bytes),
        stands_at(m.bytes(), m.data_start(), m.data()),
{
    reveal(TableModel::bytes);
    reveal(TableModel::header_bytes);
    let a = m.header_bytes();
    let b = m.column_bytes(m.columns.len());
    let c = m.rows_bytes(m.rows.len());
    let d = m.pool().bytes;
    let e = m.data();
    lemma_column_bytes_len(m, m.columns.len());
    lemma_rows_bytes_len(m, m.rows.len());
    assert(a.len() == 32);
    let s = m.bytes();
    assert(s.subrange(0, 32) =~= a);
    assert(s.subrange(32, m.rows_start()) =~= b);
    assert(s.subrange(m.rows_start(), m.strings_start()) =~= c);
    assert(s.subrange(m.strings_start(), m.strings_start() + d.len()) =~= d);
    assert(s.subrange(m.data_start(), m.data_start() + e.len()) =~= e);
}

/// The header of a table is read as its fields.
pub proof fn lemma_header_read(m: TableModel)
    requires
        m.fits(),
    ensures
        table_header(m.bytes()) == m.read_header(),
        utf_signature().is_prefix_of(m.bytes()),
{
    lemma_sections(m);
    let s = m.bytes();
    let h = m.header_bytes();
    reveal(TableModel::header_bytes);
    assert(h.len() == 32);
    assert(s.subrange(0, 32) == h);
    assert(h.subrange(4, 8) =~= be32((m.total() - 8) as u32));
    assert(h[8] == 0 && h[9] == 1);
    assert(s[8] == s.subrange(0, 32)[8] && s[9] == s.subrange(0, 32)[9]);
    assert(h.subrange(10, 12) =~= be16((m.rows_start() - 8) as u16));
    assert(h.subrange(12, 16) =~= be32((m.strings_start() - 8) as u32));
    assert(h.subrange(16, 20) =~= be32((m.data_start() - 8) as u32));
    assert(h.subrange(20, 24) =~= be32(m.pool().offsets[m.name] as u32));
    assert(h.subrange(24, 26) =~= be16(m.columns.len() as u16));
    assert(h.subrange(26, 28) =~= be16(m.row_size() as u16));
    assert(h.subrange(28, 32) =~= be32(m.rows.len() as u32));
    lemma_stands_within(s, 0, h, 4, be32((m.total() - 8) as u32));
    lemma_stands_within(s, 0, h, 10, be16((m.rows_start() - 8) as u16));
    lemma_stands_within(s, 0, h, 12, be32((m.strings_start() - 8) as u32));
    lemma_stands_within(s, 0, h, 16, be32((m.data_start() - 8) as u32));
    lemma_stands_within(s, 0, h, 20, be32(m.pool().offsets[m.name] as u32));
    lemma_stands_within(s, 0, h, 24, be16(m.columns.len() as u16));
    lemma_stands_within(s, 0, h, 26, be16(m.row_size() as u16));
    lemma_stands_within(s, 0, h, 28, be32(m.rows.len() as u32));
    lemma_be32_read(s, 4, (m.total() - 8) as u32);
    lemma_be16_read(s, 10, (m.rows_start() - 8) as u16);
    lemma_be32_read(s, 12, (m.strings_start() - 8) as u32);
    lemma_be32_read(s, 16, (m.data_start() - 8) as u32);
    lemma_be32_read(s, 20, m.pool().offsets[m.name] as u32);
    lemma_be16_read(s, 24, m.columns.len() as u16);
    lemma_be16_read(s, 26, m.row_size() as u16);
    lemma_be32_read(s, 28, m.rows.len() as u32);
    assert(h.subrange(0, 4) =~= utf_signature());
    assert(s.subrange(0, 4) =~= h.subrange(0, 4));
}

/// The type of a written column, as it is read.
pub open spec fn read_kind(kind: UtfType) -> ColumnType {
    match kind {
        UtfType::UInt16 => ColumnType::UInt16,
        UtfType::UInt32 => ColumnType::UInt32,
        UtfType::UInt64 => ColumnType::UInt64,
        UtfType::String => ColumnType::String,
        UtfType::Data => ColumnType::Data,
    }
}

/// The flag byte of a written column is read as named, row-stored and of the
/// column's type.
proof fn lemma_flag_byte(kind: UtfType)
    ensures
        ({
            let flag = ColumnValue { byte: kind.flag_byte() };
            flag.named() && !flag.has_default() && flag.row_stored() && flag.kind() == read_kind(
                kind,
            ) && flag.kind().width() == kind.width()
        }),
{
    assert(0x52u8 & 0x0f == 2 && 0x54u8 & 0x0f == 4 && 0x56u8 & 0x0f == 6 && 0x5au8 & 0x0f == 10
        && 0x5bu8 & 0x0f == 11 && 0x52u8 & 0xf0 == 0x50 && 0x54u8 & 0xf0 == 0x50 && 0x56u8 & 0xf0
        == 0x50 && 0x5au8 & 0xf0 == 0x50 && 0x5bu8 & 0xf0 == 0x50 && 0x50u8 & 0x10 == 0x10 && 0x50u8
        & 0x20 == 0 && 0x50u8 & 0x40 == 0x40) by (bit_vector);
}

/// The schema of a table is read as its columns.
proof fn lemma_columns_read(m: TableModel, count: nat)
    requires
        m.fits(),
        count <= m.columns.len(),
    ensures
        columns_of(m.bytes(), count) == Ok::<(Seq<Column>, int), TableError>(
            (m.read_columns().subrange(0, count as int), HEADER_SIZE + 5 * count),
        ),
    decreases count,
{
    let s = m.bytes();
    let columns = m.read_columns();
    if count == 0 {
        assert(columns.subrange(0, 0) =~= Seq::empty());
    } else {
        let j = count - 1;
        lemma_columns_read(m, j as nat);
        lemma_sections(m);
        lemma_column_piece(m, j, m.columns.len());
        lemma_column_bytes_len(m, m.columns.len());
        let name_at = m.pool().offsets[m.columns[j].name] as u32;
        let piece = seq![m.columns[j].kind.flag_byte()] + be32(name_at);
        lemma_stands_within(
            s,
            HEADER_SIZE as int,
            m.column_bytes(m.columns.len()),
            5 * j,
            piece,
        );
        let at = HEADER_SIZE + 5 * j;
        assert(s.subrange(at, at + 5) == piece);
        assert(s[at] == s.subrange(at, at + 5)[0]);
        assert(piece.subrange(1, 5) =~= be32(name_at));
        lemma_stands_within(s, at, piece, 1, be32(name_at));
        lemma_be32_read(s, at + 1, name_at);
        lemma_flag_byte(m.columns[j].kind);
        assert(column_at(s, at) == Ok::<(Column, int), TableError>((columns[j], at + 5)));
        assert(columns.subrange(0, j).push(columns[j]) =~= columns.subrange(0, count as int));
    }
}

/// A row takes as many bytes when it is read as when it is written.
proof fn lemma_width_read(m: TableModel, count: nat)
    requires
        count <= m.columns.len(),
    ensures
        stored_width(m.read_columns(), count) == m.width(count),
    decreases count,
{
    if count > 0 {
        lemma_width_read(m, (count - 1) as nat);
        lemma_flag_byte(m.columns[count - 1].kind);
    }
}

/// A stored value is read back.
proof fn lemma_value_read(m: TableModel, r: int, c: int)
    requires
        m.fits(),
        0 <= r < m.rows.len(),
        0 <= c < m.columns.len(),
    ensures
        cell_value(
            read_kind(m.columns[c].kind),
            m.bytes(),
            m.rows_start() + r * m.row_size() + m.width(c as nat),
        ) == m.read_value(r, c),
{
    let s = m.bytes();
    let cell = m.rows[r][c];
    let piece = cell_bytes(cell, m.pool().offsets, m.data_at(r, c));
    assert(m.row_shaped(r));
    assert(cell.kind() == m.columns[c].kind);
    lemma_sections(m);
    lemma_row_piece(m, r, m.rows.len());
    lemma_cell_piece(m, r, c, m.columns.len());
    assert(r * m.row_size() == m.row_size() * r) by (nonlinear_arith);
    lemma_stands_within(
        s,
        m.rows_start(),
        m.rows_bytes(m.rows.len()),
        m.row_size() * r,
        m.row_bytes(r, m.columns.len()),
    );
    let row_start = m.rows_start() + m.row_size() * r;
    lemma_stands_within(
        s,
        row_start,
        m.row_bytes(r, m.columns.len()),
        m.width(c as nat),
        piece,
    );
    let at = row_start + m.width(c as nat);
    match cell {
        Cell::UInt16(v) => {
            lemma_be16_read(s, at, v);
        },
        Cell::UInt32(v) => {
            lemma_be32_read(s, at, v);
        },
        Cell::UInt64(v) => {
            lemma_be64_read(s, at, v);
        },
        Cell::Text(text) => {
            lemma_be32_read(s, at, m.pool().offsets[text] as u32);
        },
        Cell::Blob(bytes) => {
            let x = be32(m.data_at(r, c) as u32);
            let y = be32(bytes.len() as u32);
            assert(piece.subrange(0, 4) =~= x);
            assert(piece.subrange(4, 8) =~= y);
            lemma_stands_within(s, at, piece, 0, x);
            lemma_stands_within(s, at, piece, 4, y);
            lemma_be32_read(s, at, m.data_at(r, c) as u32);
            lemma_be32_read(s, at + 4, bytes.len() as u32);
        },
    }
}

/// The fields of the header fit in their widths.
pub proof fn lemma_header_fields(m: TableModel)
    requires
        m.fits(),
    ensures
        m.read_header().size_field + 8 == m.total(),
        m.read_header().rows_start() == m.rows_start(),
        m.read_header().strings_start() == m.strings_start(),
        m.read_header().data_start() == m.data_start(),
        m.read_header().row_size_field == m.row_size(),
        m.read_header().rows_count_field == m.rows.len(),
        m.read_header().columns_field == m.columns.len(),
        HEADER_SIZE <= m.rows_start() <= m.strings_start() <= m.data_start() <= m.total(),
{
    lemma_width_nonnegative(m, m.columns.len());
    assert(m.row_size() * m.rows.len() >= 0) by (nonlinear_arith)
        requires
            m.row_size() >= 0,
    ;
}

/// The rows of a table are read back.
proof fn lemma_rows_read(m: TableModel)
    requires
        m.fits(),
    ensures
        rows_of(m.bytes(), m.read_header(), m.read_columns()) == m.read_rows(),
{
    let s = m.bytes();
    let columns = m.read_columns();
    let read = rows_of(s, m.read_header(), columns);
    lemma_header_fields(m);
    assert forall|r: int| 0 <= r < m.rows.len() implies #[trigger] read[r] == m.read_rows()[r] by {
        let at = m.read_header().rows_start() + r * m.read_header().row_size_field;
        assert forall|c: int| 0 <= c < m.columns.len() implies #[trigger] row_at(s, columns, at)[c]
            == m.read_value(r, c) by {
            lemma_flag_byte(m.columns[c].kind);
            lemma_width_read(m, c as nat);
            lemma_value_read(m, r, c);
        }
        assert(read[r] =~= m.read_rows()[r]);
    }
    assert(read =~= m.read_rows());
}

/// The data of a value stands in the data pool at its offset.
proof fn lemma_blob_placed(m: TableModel, r: int, c: int)
    requires
        0 <= r < m.rows.len(),
        0 <= c < m.rows[r].len(),
        m.rows[r][c] is Blob,
    ensures
        stands_at(m.data(), m.data_at(r, c), m.rows[r][c]->Blob_0),
{
    let row = m.rows[r];
    let blob = row[c]->Blob_0;
    let before = data_cells(row, c as nat);
    lemma_data_cells_grow(row, (c + 1) as nat, row.len());
    lemma_data_rows_grow(m, (r + 1) as nat, m.rows.len());
    let upto = data_cells(row, (c + 1) as nat);
    let whole = data_cells(row, row.len());
    assert(upto.subrange(before.len() as int, upto.len() as int) =~= blob);
    assert(whole.subrange(before.len() as int, upto.len() as int) =~= blob) by {
        assert(whole.subrange(before.len() as int, upto.len() as int) =~= whole.subrange(
            0,
            upto.len() as int,
        ).subrange(before.len() as int, upto.len() as int));
    }
    let rows_before = m.data_rows(r as nat);
    let rows_upto = m.data_rows((r + 1) as nat);
    let at = m.data_at(r, c);
    assert(rows_upto.subrange(at, at + blob.len()) =~= blob) by {
        assert(rows_upto.subrange(at, at + blob.len()) =~= whole.subrange(
            before.len() as int,
            upto.len() as int,
        ));
    }
    assert(m.data().subrange(at, at + blob.len()) =~= blob) by {
        assert(m.data().subrange(at, at + blob.len()) =~= m.data().subrange(
            0,
            rows_upto.len() as int,
        ).subrange(at, at + blob.len()));
    }
}

/// A table value is read as the cell it was written from, a text up to its first
/// NUL. An empty text is stored as the null reference.
pub open spec fn reads_as(t: TableView, r: int, c: int, cell: Cell) -> bool {
    match cell {
        Cell::UInt16(v) => t.value_at(r, c) == Some(RowValue::UInt16(v)),
        Cell::UInt32(v) => t.value_at(r, c) == Some(RowValue::UInt32(v)),
        Cell::UInt64(v) => t.value_at(r, c) == Some(RowValue::UInt64(v)),
        Cell::Text(text) => {
            &&& t.value_at(r, c) matches Some(RowValue::String(at))
            &&& t.strings.contains_key(at as int)
            &&& t.strings[at as int] == before_nul(text)
            &&& (at == 0 <==> text.len() == 0)
        },
        Cell::Blob(bytes) => {
            &&& t.value_at(r, c) matches Some(RowValue::Data(d))
            &&& d.length == bytes.len()
            &&& t.data_of(d) == Some(bytes)
        },
    }
}

/// `t` is the table that `m` describes.
pub open spec fn table_reads_as(t: TableView, m: TableModel) -> bool {
    &&& t.columns.len() == m.columns.len()
    &&& t.rows.len() == m.rows.len()
    &&& forall|j: int|
        0 <= j < m.columns.len() ==> t.named(j, #[trigger] m.columns[j].name)
    &&& forall|r: int, c: int|
        0 <= r < m.rows.len() && 0 <= c < m.columns.len() ==> reads_as(
            t,
            r,
            c,
            #[trigger] m.rows[r][c],
        )
}

/// What a stored table is read as.
pub open spec fn stored_table(m: TableModel) -> TableView {
    TableView {
        bytes: m.bytes(),
        header: m.read_header(),
        columns: m.read_columns(),
        strings: pool_strings(m.pool().bytes, StringEncoding::UTF8)->Ok_0,
        rows: m.read_rows(),
    }
}

proof fn lemma_table_read(m: TableModel)
    requires
        m.fits(),
        pool_strings(m.pool().bytes, StringEncoding::UTF8) is Ok,
    ensures
        table_of(m.bytes()) == Ok::<TableView, TableError>(stored_table(m)),
{
    let s = m.bytes();
    let columns = m.read_columns();
    let header = m.read_header();
    let p = m.pool();
    lemma_sections(m);
    lemma_header_read(m);
    lemma_header_fields(m);
    lemma_columns_read(m, m.columns.len());
    lemma_width_read(m, m.columns.len());
    lemma_rows_read(m);
    assert(columns.subrange(0, columns.len() as int) =~= columns);
    assert(m.row_size() * m.rows.len() == header.row_size_field * header.rows_count_field);
    assert(s.subrange(0, s.len() as int) =~= s);
    assert(s.subrange(m.strings_start(), m.data_start()) == p.bytes);
}

/// The strings of a table are its texts, up to their first NUL.
spec fn strings_told(m: TableModel) -> bool {
    let strings = stored_table(m).strings;
    forall|text: Seq<char>| #[trigger]
        m.pool().offsets.contains_key(text) ==> strings.contains_key(
            m.pool().offsets[text] as int,
        ) && strings[m.pool().offsets[text] as int] == before_nul(text)
}

/// A stored value is read as the cell it was written from.
proof fn lemma_cell_read(m: TableModel, r: int, c: int)
    requires
        m.fits(),
        pool_sound(m.pool()),
        strings_told(m),
        0 <= r < m.rows.len(),
        0 <= c < m.columns.len(),
    ensures
        reads_as(stored_table(m), r, c, m.rows[r][c]),
{
    let t = stored_table(m);
    lemma_header_fields(m);
    lemma_sections(m);
    assert(m.row_shaped(r));
    assert(t.rows[r][c] == m.read_value(r, c));
    match m.rows[r][c] {
        Cell::Text(text) => {
            lemma_text_in_pool(m, r, c);
            lemma_zero_offset_is_empty(m.pool(), text);
            lemma_placed_fits(m.pool(), text);
        },
        Cell::Blob(bytes) => {
            lemma_blob_placed(m, r, c);
            lemma_stands_within(t.bytes, m.data_start(), m.data(), m.data_at(r, c), bytes);
        },
        _ => {},
    }
}

/// A text stands inside the pool.
proof fn lemma_placed_fits(p: Pool, text: Seq<char>)
    requires
        pool_sound(p),
        p.offsets.contains_key(text),
    ensures
        p.offsets[text] < p.bytes.len(),
{
    assert(placed(p, text));
}

/// A column has the name it was given.
proof fn lemma_name_read(m: TableModel, j: int)
    requires
        m.fits(),
        m.plain(),
        pool_sound(m.pool()),
        strings_told(m),
        0 <= j < m.columns.len(),
    ensures
        stored_table(m).named(j, m.columns[j].name),
{
    lemma_header_fields(m);
    lemma_column_in_pool(m, j);
    lemma_placed_fits(m.pool(), m.columns[j].name);
    lemma_before_nul(m.columns[j].name);
    assert(no_nul(m.columns[j].name));
}

/// A table that can be stored, and whose column names hold no NUL, is read back:
/// every column under its name, every value as it was written. A text is read up
/// to its first NUL.
pub proof fn law_table_roundtrip(m: TableModel)
    requires
        m.fits(),
        m.plain(),
    ensures
        m.bytes().len() == m.total(),
        table_of(m.bytes()) matches Ok(t) && table_reads_as(t, m),
{
    let t = stored_table(m);
    lemma_header_fields(m);
    lemma_pool_rows_sound(m, m.rows.len());
    lemma_pool_strings(m.pool());
    lemma_table_read(m);
    lemma_sections(m);
    assert forall|j: int| 0 <= j < m.columns.len() implies t.named(
        j,
        #[trigger] m.columns[j].name,
    ) by {
        lemma_name_read(m, j);
    }
    assert forall|r: int, c: int| 0 <= r < m.rows.len() && 0 <= c < m.columns.len() implies reads_as(
        t,
        r,
        c,
        #[trigger] m.rows[r][c],
    ) by {
        lemma_cell_read(m, r, c);
    }
}

/// The name of a written table stands where its header says; it is read up to its
/// first NUL.
pub proof fn law_table_name_reads_back(m: TableModel)
    requires
        m.fits(),
        m.plain(),
    ensures
        table_of(m.bytes()) matches Ok(t) && t.strings.contains_key(t.header.name_field as int)
            && t.strings[t.header.name_field as int] == before_nul(m.name),
{
    lemma_header_fields(m);
    lemma_pool_rows_sound(m, m.rows.len());
    lemma_pool_strings(m.pool());
    lemma_table_read(m);
    lemma_sections(m);
    lemma_name_in_pool(m);
    lemma_placed_fits(m.pool(), m.name);
}

} // verus!
