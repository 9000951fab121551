//! Chunks and the tables inside them.

use vstd::prelude::*;
use vstd::slice::slice_subrange;
use vstd::string::*;

use crate::cpk::encrypt::table::{table_cipher, utf_signature, TableDecryptor};
use crate::schema::columns::{columns_of, lemma_columns_bounds, Column};
use crate::schema::error::TableError;
use crate::schema::header::{table_header, TableHeader, HEADER_SIZE};
use crate::schema::rows::{rows_of, rows_view, stored_width, DataValue, Row, RowValue};
use crate::schema::strings::{pool_strings, StringPool, StringPoolFast};
use crate::utils::bytes::{copy_range, le_u64, read_le_u64, starts_with};
use crate::utils::text::{decimal, hexadecimal, numeral, str_eq};

verus! {

/// Bytes of the header in front of each table.
pub const CPK_CHUNK_HEADER_SIZE: usize = 0x10;

/// Bytes at the front of an archive that belong to the header chunk.
pub const CPK_HEADER_AREA: u64 = 0x800;

/// What a chunk holds.
#[derive(Debug, Clone, Copy, PartialEq, Eq)]
pub enum CpkChunkKind {
    Cpk,
    Toc,
    Itoc,
    Etoc,
    Gtoc,
    Unknown([u8; 4]),
}

/// The kind that the first four bytes of `s` stand for.
pub open spec fn chunk_kind(s: Seq<u8>) -> CpkChunkKind {
    let (a, b, c, d) = (s[0], s[1], s[2], s[3]);
    if a == 0x43 && b == 0x50 && c == 0x4b && d == 0x20 {
        CpkChunkKind::Cpk
    } else if a == 0x54 && b == 0x4f && c == 0x43 && d == 0x20 {
        CpkChunkKind::Toc
    } else if a == 0x49 && b == 0x54 && c == 0x4f && d == 0x43 {
        CpkChunkKind::Itoc
    } else if a == 0x45 && b == 0x54 && c == 0x4f && d == 0x43 {
        CpkChunkKind::Etoc
    } else if a == 0x47 && b == 0x54 && c == 0x4f && d == 0x43 {
        CpkChunkKind::Gtoc
    } else {
        CpkChunkKind::Unknown([a, b, c, d])
    }
}

impl CpkChunkKind {
    /// The four bytes that stand for the kind.
    pub open spec fn magic_bytes(self) -> Seq<u8> {
        match self {
            CpkChunkKind::Cpk => seq![0x43u8, 0x50u8, 0x4bu8, 0x20u8],
            CpkChunkKind::Toc => seq![0x54u8, 0x4fu8, 0x43u8, 0x20u8],
            CpkChunkKind::Itoc => seq![0x49u8, 0x54u8, 0x4fu8, 0x43u8],
            CpkChunkKind::Etoc => seq![0x45u8, 0x54u8, 0x4fu8, 0x43u8],
            CpkChunkKind::Gtoc => seq![0x47u8, 0x54u8, 0x4fu8, 0x43u8],
            CpkChunkKind::Unknown(magic) => magic@,
        }
    }

    pub fn from_magic(magic: [u8; 4]) -> (kind: Self)
        ensures
            kind == chunk_kind(magic@),
    {
        let (a, b, c, d): (u8, u8, u8, u8) = (magic[0], magic[1], magic[2], magic[3]);
        if a == 0x43 && b == 0x50 && c == 0x4b && d == 0x20 {
            CpkChunkKind::Cpk
        } else if a == 0x54 && b == 0x4f && c == 0x43 && d == 0x20 {
            CpkChunkKind::Toc
        } else if a == 0x49 && b == 0x54 && c == 0x4f && d == 0x43 {
            CpkChunkKind::Itoc
        } else if a == 0x45 && b == 0x54 && c == 0x4f && d == 0x43 {
            CpkChunkKind::Etoc
        } else if a == 0x47 && b == 0x54 && c == 0x4f && d == 0x43 {
            CpkChunkKind::Gtoc
        } else {
            CpkChunkKind::Unknown([a, b, c, d])
        }
    }

    pub fn magic(self) -> (magic: [u8; 4])
        ensures
            magic@ == self.magic_bytes(),
    {
        match self {
            CpkChunkKind::Cpk => [0x43, 0x50, 0x4b, 0x20],
            CpkChunkKind::Toc => [0x54, 0x4f, 0x43, 0x20],
            CpkChunkKind::Itoc => [0x49, 0x54, 0x4f, 0x43],
            CpkChunkKind::Etoc => [0x45, 0x54, 0x4f, 0x43],
            CpkChunkKind::Gtoc => [0x47, 0x54, 0x4f, 0x43],
            CpkChunkKind::Unknown(magic) => magic,
        }
    }

    /// The kind's name in messages.
    pub open spec fn label_text(self) -> Seq<char> {
        match self {
            CpkChunkKind::Cpk => "Cpk"@,
            CpkChunkKind::Toc => "Toc"@,
            CpkChunkKind::Itoc => "Itoc"@,
            CpkChunkKind::Etoc => "Etoc"@,
            CpkChunkKind::Gtoc => "Gtoc"@,
            CpkChunkKind::Unknown(m) => "Unknown(["@ + numeral(m[0] as nat, 10) + ", "@ + numeral(
                m[1] as nat,
                10,
            ) + ", "@ + numeral(m[2] as nat, 10) + ", "@ + numeral(m[3] as nat, 10) + "])"@,
        }
    }

    /// The kind's name in messages.
    pub fn label(&self) -> (text: String)
        ensures
            text@ == self.label_text(),
    {
        match self {
            CpkChunkKind::Cpk => "Cpk".to_owned(),
            CpkChunkKind::Toc => "Toc".to_owned(),
            CpkChunkKind::Itoc => "Itoc".to_owned(),
            CpkChunkKind::Etoc => "Etoc".to_owned(),
            CpkChunkKind::Gtoc => "Gtoc".to_owned(),
            CpkChunkKind::Unknown(m) => {
                let mut text = "Unknown([".to_owned();
                text.append(decimal(m[0] as u64).as_str());
                text.append(", ");
                text.append(decimal(m[1] as u64).as_str());
                text.append(", ");
                text.append(decimal(m[2] as u64).as_str());
                text.append(", ");
                text.append(decimal(m[3] as u64).as_str());
                text.append("])");
                text
            },
        }
    }
}

/// A kind other than an unknown one is found again by its magic, and every
/// magic is kept by the kind that it stands for.
pub proof fn law_chunk_magic_roundtrip(kind: CpkChunkKind, magic: [u8; 4])
    ensures
        chunk_kind(magic@).magic_bytes() == magic@,
        kind !is Unknown ==> chunk_kind(kind.magic_bytes()) == kind,
{
    let (a, b, c, d) = (magic@[0], magic@[1], magic@[2], magic@[3]);
    assert(magic@ =~= seq![a, b, c, d]);
    assert([a, b, c, d]@ =~= seq![a, b, c, d]);
}

/// Why no table can be taken out of a chunk.
#[derive(Debug, Clone, Copy)]
pub enum ChunkError {
    /// The stream ends inside the chunk header.
    UnexpectedEof,
    /// The table does not fit in this platform's memory.
    TableTooLarge { size: u64 },
    /// The table is smaller than a table header.
    InvalidTableSize { kind: CpkChunkKind, size: u64 },
    /// The header chunk leaves the area reserved for it.
    HeaderAreaExceeded { size: u64 },
    /// The stream ends inside the table.
    TruncatedTable { kind: CpkChunkKind, size: u64, remaining: u64 },
    /// The table lacks the `@UTF` signature.
    MissingSignature { kind: CpkChunkKind },
}

impl ChunkError {
    /// The message of the error.
    pub open spec fn message_text(self) -> Seq<char> {
        match self {
            ChunkError::UnexpectedEof => "failed to fill whole buffer"@,
            ChunkError::TableTooLarge { size } => "CPK table is too large for this platform: "@
                + numeral(size as nat, 10) + " bytes"@,
            ChunkError::InvalidTableSize { kind, size } => "invalid "@ + kind.label_text()
                + " table size: 0x"@ + numeral(size as nat, 16),
            ChunkError::HeaderAreaExceeded { size } =>
                "CPK header exceeds the engine's 0x800-byte header area: 0x"@ + numeral(
                size as nat,
                16,
            ),
            ChunkError::TruncatedTable { kind, size, remaining } => "truncated "@
                + kind.label_text() + " table: declares 0x"@ + numeral(size as nat, 16)
                + " bytes, only 0x"@ + numeral(remaining as nat, 16) + " remain"@,
            ChunkError::MissingSignature { kind } => kind.label_text()
                + " chunk does not contain a valid @UTF table"@,
        }
    }

    /// The message of the error.
    pub fn message(&self) -> (text: String)
        ensures
            text@ == self.message_text(),
    {
        match self {
            ChunkError::UnexpectedEof => "failed to fill whole buffer".to_owned(),
            ChunkError::TableTooLarge { size } => {
                let mut text = "CPK table is too large for this platform: ".to_owned();
                text.append(decimal(*size).as_str());
                text.append(" bytes");
                text
            },
            ChunkError::InvalidTableSize { kind, size } => {
                let mut text = "invalid ".to_owned();
                text.append(kind.label().as_str());
                text.append(" table size: 0x");
                text.append(hexadecimal(*size).as_str());
                text
            },
            ChunkError::HeaderAreaExceeded { size } => {
                let mut text = "CPK header exceeds the engine's 0x800-byte header area: 0x".to_owned();
                text.append(hexadecimal(*size).as_str());
                text
            },
            ChunkError::TruncatedTable { kind, size, remaining } => {
                let mut text = "truncated ".to_owned();
                text.append(kind.label().as_str());
                text.append(" table: declares 0x");
                text.append(hexadecimal(*size).as_str());
                text.append(" bytes, only 0x");
                text.append(hexadecimal(*remaining).as_str());
                text.append(" remain");
                text
            },
            ChunkError::MissingSignature { kind } => {
                let mut text = kind.label();
                text.append(" chunk does not contain a valid @UTF table");
                text
            },
        }
    }
}

/// What the chunk at `at` holds: its kind and the plain table.
pub open spec fn chunk_at(stream: Seq<u8>, at: int) -> Result<(CpkChunkKind, Seq<u8>), ChunkError> {
    if at + CPK_CHUNK_HEADER_SIZE > stream.len() {
        Err(ChunkError::UnexpectedEof)
    } else {
        let kind = chunk_kind(stream.subrange(at, at + 4));
        let size = le_u64(stream, at + 8);
        let start = at + CPK_CHUNK_HEADER_SIZE;
        let remaining = stream.len() - start;
        if size > usize::MAX {
            Err(ChunkError::TableTooLarge { size })
        } else if size < HEADER_SIZE {
            Err(ChunkError::InvalidTableSize { kind, size })
        } else if kind is Cpk && size + CPK_CHUNK_HEADER_SIZE > CPK_HEADER_AREA {
            Err(ChunkError::HeaderAreaExceeded { size })
        } else if size > remaining {
            Err(ChunkError::TruncatedTable { kind, size, remaining: remaining as u64 })
        } else {
            let stored = stream.subrange(start, start + size);
            let table = if stream[at + 4] == 0 {
                table_cipher(stored)
            } else {
                stored
            };
            if utf_signature().is_prefix_of(table) {
                Ok((kind, table))
            } else {
                Err(ChunkError::MissingSignature { kind })
            }
        }
    }
}

/// A table taken out of its chunk.
#[derive(Debug)]
pub struct TableContainer {
    kind: CpkChunkKind,
    table: Vec<u8>,
}

impl View for TableContainer {
    type V = (CpkChunkKind, Seq<u8>);

    closed spec fn view(&self) -> (CpkChunkKind, Seq<u8>) {
        (self.kind, self.table@)
    }
}

/// Whether the bytes begin with the `@UTF` signature.
pub(crate) fn has_signature(bytes: &[u8]) -> (yes: bool)
    ensures
        yes == utf_signature().is_prefix_of(bytes@),
{
    let signature: Vec<u8> = vec![0x40, 0x55, 0x54, 0x46];
    assert(signature@ =~= utf_signature());
    starts_with(bytes, signature.as_slice())
}

impl TableContainer {
    /// Takes the table out of the chunk at `at`. A table whose chunk has a zero
    /// at offset 4 is decrypted.
    pub fn new(stream: &[u8], at: u64) -> (r: Result<Self, ChunkError>)
        ensures
            match chunk_at(stream@, at as int) {
                Ok(chunk) => r matches Ok(container) && container@ == chunk,
                Err(e) => r matches Err(f) && f == e,
            },
    {
        if stream.len() < CPK_CHUNK_HEADER_SIZE || at > (stream.len() - CPK_CHUNK_HEADER_SIZE)
            as u64 {
            return Err(ChunkError::UnexpectedEof);
        }
        let at: usize = at as usize;
        let kind = CpkChunkKind::from_magic(
            [stream[at], stream[at + 1], stream[at + 2], stream[at + 3]],
        );
        proof {
            let m = [
                stream@[at as int],
                stream@[at + 1],
                stream@[at + 2],
                stream@[at + 3],
            ];
            assert(m@ =~= stream@.subrange(at as int, at + 4));
        }
        let size: u64 = read_le_u64(stream, at + 8);
        if size > usize::MAX as u64 {
            return Err(ChunkError::TableTooLarge { size });
        }
        if size < HEADER_SIZE as u64 {
            return Err(ChunkError::InvalidTableSize { kind, size });
        }
        if matches!(kind, CpkChunkKind::Cpk) && size > CPK_HEADER_AREA
            - CPK_CHUNK_HEADER_SIZE as u64 {
            return Err(ChunkError::HeaderAreaExceeded { size });
        }
        let start: usize = at + CPK_CHUNK_HEADER_SIZE;
        let remaining: u64 = (stream.len() - start) as u64;
        if size > remaining {
            return Err(ChunkError::TruncatedTable { kind, size, remaining });
        }
        let mut table = copy_range(stream, start, start + size as usize);
        if stream[at + 4] == 0 {
            TableDecryptor::decrypt_utf_in_place(table.as_mut_slice());
        }
        if !has_signature(table.as_slice()) {
            return Err(ChunkError::MissingSignature { kind });
        }
        Ok(TableContainer { kind, table })
    }

    pub fn kind(&self) -> (kind: CpkChunkKind)
        ensures
            kind == self@.0,
    {
        self.kind
    }

    pub fn into_table(self) -> (table: Vec<u8>)
        ensures
            table@ == self@.1,
    {
        self.table
    }
}

/// The contents of a table.
#[verifier::ext_equal]
pub struct TableView {
    pub bytes: Seq<u8>,
    pub header: TableHeader,
    pub columns: Seq<Column>,
    pub strings: Map<int, Seq<char>>,
    pub rows: Seq<Seq<RowValue>>,
}

/// What the table in `alloc` holds. Bytes behind the declared size are ignored.
pub open spec fn table_of(alloc: Seq<u8>) -> Result<TableView, TableError> {
    if alloc.len() < HEADER_SIZE || !utf_signature().is_prefix_of(alloc) {
        Err(TableError::InvalidTable)
    } else {
        let header = table_header(alloc);
        let declared = header.size_field + 8;
        if declared > alloc.len() {
            Err(TableError::Truncated { declared: declared as u64, available: alloc.len() as u64 })
        } else if header.rows_start() < HEADER_SIZE || header.rows_start() > header.strings_start()
            || header.strings_start() > header.data_start() || header.data_start() > declared {
            Err(TableError::InvalidSectionOffsets)
        } else if header.rows_start() + header.row_size_field * header.rows_count_field
            > header.strings_start() {
            Err(TableError::RowsOverlapStrings)
        } else {
            let bytes = alloc.subrange(0, declared);
            match columns_of(bytes, header.columns_field as nat) {
                Err(e) => Err(e),
                Ok((columns, at)) => {
                    let pool = pool_strings(
                        bytes.subrange(header.strings_start(), header.data_start()),
                        header.string_encoding,
                    );
                    if at > header.rows_start() {
                        Err(TableError::ColumnsOverlapRows)
                    } else if stored_width(columns, columns.len()) > header.row_size_field {
                        Err(TableError::RowSchemaTooWide)
                    } else {
                        match pool {
                            Err(e) => Err(e),
                            Ok(strings) => Ok(
                                TableView {
                                    bytes,
                                    header,
                                    columns,
                                    strings,
                                    rows: rows_of(bytes, header, columns),
                                },
                            ),
                        }
                    }
                },
            }
        }
    }
}

impl TableView {
    /// The column `j` has the name `name`.
    pub open spec fn named(self, j: int, name: Seq<char>) -> bool {
        let at = self.columns[j].string_offset as int;
        self.strings.contains_key(at) && self.strings[at] == name
    }

    /// The first column at or behind `from` with the name `name`.
    pub open spec fn index_from(self, name: Seq<char>, from: int) -> Option<int>
        decreases self.columns.len() - from,
    {
        if from >= self.columns.len() {
            None
        } else if self.named(from, name) {
            Some(from)
        } else {
            self.index_from(name, from + 1)
        }
    }

    /// The first column with the name `name`.
    pub open spec fn index_of(self, name: Seq<char>) -> Option<int> {
        self.index_from(name, 0)
    }

    /// The value of a row in a column. A column without a value in the row has
    /// its default.
    pub open spec fn value_at(self, row: int, column: int) -> Option<RowValue> {
        if row >= self.rows.len() || column >= self.rows[row].len() {
            None
        } else if self.rows[row][column] is Absent {
            if column < self.columns.len() {
                self.columns[column].default
            } else {
                None
            }
        } else {
            Some(self.rows[row][column])
        }
    }

    /// The value of a row in the column with the name `name`.
    pub open spec fn value_named(self, row: int, name: Seq<char>) -> Option<RowValue> {
        match self.index_of(name) {
            Some(column) => self.value_at(row, column),
            None => None,
        }
    }

    /// The number of a row in the column with the name `name`.
    pub open spec fn number_named(self, row: int, name: Seq<char>) -> Option<u64> {
        match self.value_named(row, name) {
            Some(value) => number_of(value),
            None => None,
        }
    }

    /// The bytes of the data pool that a reference stands for.
    pub open spec fn data_of(self, value: DataValue) -> Option<Seq<u8>> {
        let start = self.header.data_start() + value.offset;
        let end = start + value.length;
        if end <= self.bytes.len() {
            Some(self.bytes.subrange(start, end))
        } else {
            None
        }
    }

    /// The data of a row in the column with the name `name`.
    pub open spec fn data_named(self, row: int, name: Seq<char>) -> Option<Seq<u8>> {
        match self.value_named(row, name) {
            Some(RowValue::Data(value)) => if value.absent() {
                None
            } else {
                self.data_of(value)
            },
            _ => None,
        }
    }
}

/// The number that a value stands for. Negative numbers, floats, strings and
/// data are not numbers in this sense.
pub open spec fn number_of(value: RowValue) -> Option<u64> {
    match value {
        RowValue::Byte(v) => Some(v as u64),
        RowValue::SByte(v) => if v >= 0 {
            Some(v as u64)
        } else {
            None
        },
        RowValue::UInt16(v) => Some(v as u64),
        RowValue::Int16(v) => if v >= 0 {
            Some(v as u64)
        } else {
            None
        },
        RowValue::UInt32(v) => Some(v as u64),
        RowValue::Int32(v) => if v >= 0 {
            Some(v as u64)
        } else {
            None
        },
        RowValue::UInt64(v) => Some(v),
        RowValue::Int64(v) => if v >= 0 {
            Some(v as u64)
        } else {
            None
        },
        _ => None,
    }
}

/// The number that a value stands for.
pub fn row_value_to_u64(value: &RowValue) -> (v: Option<u64>)
    ensures
        v == number_of(*value),
{
    match value {
        RowValue::Byte(v) => Some(*v as u64),
        RowValue::SByte(v) => if *v >= 0 {
            Some(*v as u64)
        } else {
            None
        },
        RowValue::UInt16(v) => Some(*v as u64),
        RowValue::Int16(v) => if *v >= 0 {
            Some(*v as u64)
        } else {
            None
        },
        RowValue::UInt32(v) => Some(*v as u64),
        RowValue::Int32(v) => if *v >= 0 {
            Some(*v as u64)
        } else {
            None
        },
        RowValue::UInt64(v) => Some(*v),
        RowValue::Int64(v) => if *v >= 0 {
            Some(*v as u64)
        } else {
            None
        },
        _ => None,
    }
}

/// A parsed table.
#[derive(Debug)]
pub struct HighTable<S: StringPool> {
    alloc: Vec<u8>,
    header: TableHeader,
    columns: Vec<Column>,
    strings: S,
    rows: Vec<Row>,
}

impl<S: StringPool> View for HighTable<S> {
    type V = TableView;

    closed spec fn view(&self) -> TableView {
        TableView {
            bytes: self.alloc@,
            header: self.header,
            columns: self.columns@,
            strings: self.strings.strings(),
            rows: rows_view(self.rows@),
        }
    }
}

impl HighTable<StringPoolFast> {
    /// Parses the table in `alloc`.
    pub fn new(alloc: Vec<u8>) -> (r: Result<Self, TableError>)
        ensures
            match table_of(alloc@) {
                Ok(table) => r matches Ok(t) && t@ == table,
                Err(e) => r matches Err(f) && f == e,
            },
    {
        let mut alloc = alloc;
        let ghost given = alloc@;
        if alloc.len() < HEADER_SIZE || !has_signature(alloc.as_slice()) {
            return Err(TableError::InvalidTable);
        }
        let header = TableHeader::new(alloc.as_slice());
        let declared: u64 = header.size() as u64 + 8;
        if declared > alloc.len() as u64 {
            return Err(TableError::Truncated { declared, available: alloc.len() as u64 });
        }
        let rows_start: u64 = header.rows_offset();
        let strings_start: u64 = header.string_pool_offset();
        let data_start: u64 = header.data_pool_offset();
        if rows_start < HEADER_SIZE as u64 || rows_start > strings_start || strings_start
            > data_start || data_start > declared {
            return Err(TableError::InvalidSectionOffsets);
        }
        let row_size: u16 = header.row_size();
        let row_count: u32 = header.row_count();
        assert(row_size * row_count <= 0xffff * 0xffff_ffff) by (nonlinear_arith)
            requires
                row_size <= 0xffff,
                row_count <= 0xffff_ffff,
        ;
        if rows_start + row_size as u64 * row_count as u64 > strings_start {
            return Err(TableError::RowsOverlapStrings);
        }
        alloc.truncate(declared as usize);
        assert(alloc@ =~= given.subrange(0, declared as int));
        let (columns, at) = match Column::new_list(alloc.as_slice(), &header) {
            Ok(read) => read,
            Err(e) => {
                return Err(e);
            },
        };
        proof {
            lemma_columns_bounds(alloc@, header.columns_field as nat);
        }
        if at as u64 > rows_start {
            return Err(TableError::ColumnsOverlapRows);
        }
        let rows = match Row::new_list(alloc.as_slice(), &header, &columns) {
            Ok(rows) => rows,
            Err(e) => {
                return Err(e);
            },
        };
        let strings = match StringPoolFast::new_borrowed(
            slice_subrange(alloc.as_slice(), strings_start as usize, data_start as usize),
            &header,
        ) {
            Ok(strings) => strings,
            Err(e) => {
                return Err(e);
            },
        };
        Ok(HighTable { alloc, header, columns, strings, rows })
    }
}

impl<S: StringPool> HighTable<S> {
    pub fn get_strings(&self) -> (strings: &S)
        ensures
            strings.strings() == self@.strings,
    {
        &self.strings
    }

    pub fn get_rows(&self) -> (rows: &[Row])
        ensures
            rows_view(rows@) == self@.rows,
    {
        self.rows.as_slice()
    }

    /// The number of rows.
    pub fn row_count(&self) -> (count: usize)
        ensures
            count == self@.rows.len(),
    {
        self.rows.len()
    }

    /// The first column with the name `name`.
    pub fn column_index(&self, name: &str) -> (index: Option<usize>)
        ensures
            match index {
                Some(i) => self@.index_of(name@) == Some(i as int) && i < self@.columns.len(),
                None => self@.index_of(name@) is None,
            },
    {
        let mut i: usize = 0;
        while i < self.columns.len()
            invariant
                i <= self.columns@.len(),
                self@.columns == self.columns@,
                self@.index_of(name@) == self@.index_from(name@, i as int),
            decreases self.columns@.len() - i,
        {
            match self.strings.get_string(self.columns[i].get_string_offset()) {
                Some(text) => {
                    if str_eq(text, name) {
                        return Some(i);
                    }
                },
                None => {},
            }
            i = i + 1;
        }
        None
    }

    /// The value of a row in a column, or the column's default.
    pub fn value(&self, row_index: usize, column_index: usize) -> (value: Option<&RowValue>)
        ensures
            match value {
                Some(v) => self@.value_at(row_index as int, column_index as int) == Some(*v),
                None => self@.value_at(row_index as int, column_index as int) is None,
            },
    {
        if row_index >= self.rows.len() {
            return None;
        }
        match self.rows[row_index].get(column_index) {
            None => None,
            Some(value) => match value {
                RowValue::Absent => {
                    if column_index < self.columns.len() {
                        self.columns[column_index].get_default_value()
                    } else {
                        None
                    }
                },
                _ => Some(value),
            },
        }
    }

    pub fn value_by_name(&self, row_index: usize, name: &str) -> (value: Option<&RowValue>)
        ensures
            match value {
                Some(v) => self@.value_named(row_index as int, name@) == Some(*v),
                None => self@.value_named(row_index as int, name@) is None,
            },
    {
        match self.column_index(name) {
            Some(index) => self.value(row_index, index),
            None => None,
        }
    }

    pub fn u64_by_name(&self, row_index: usize, name: &str) -> (value: Option<u64>)
        ensures
            value == self@.number_named(row_index as int, name@),
    {
        match self.value_by_name(row_index, name) {
            Some(value) => row_value_to_u64(value),
            None => None,
        }
    }

    pub fn data_by_name(&self, row_index: usize, name: &str) -> (data: Option<&[u8]>)
        ensures
            match data {
                Some(d) => self@.data_named(row_index as int, name@) == Some(d@),
                None => self@.data_named(row_index as int, name@) is None,
            },
    {
        match self.value_by_name(row_index, name) {
            Some(RowValue::Data(value)) => {
                if value.is_none() {
                    None
                } else {
                    self.data(value)
                }
            },
            _ => None,
        }
    }

    /// The bytes of the data pool that a reference stands for.
    pub fn data(&self, value: &DataValue) -> (data: Option<&[u8]>)
        ensures
            match data {
                Some(d) => self@.data_of(*value) == Some(d@),
                None => self@.data_of(*value) is None,
            },
    {
        let start: u64 = self.header.data_pool_offset() + value.get_offset() as u64;
        let end: u64 = start + value.get_length() as u64;
        if end > self.alloc.len() as u64 {
            return None;
        }
        Some(slice_subrange(self.alloc.as_slice(), start as usize, end as usize))
    }
}

} // verus!
