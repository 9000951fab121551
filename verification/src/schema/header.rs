//! The fixed-size header of an `@UTF` table.

use vstd::prelude::*;

use crate::utils::bytes::{be_u16, be_u32, read_be_u16, read_be_u32};

verus! {

/// Bytes of the table header; the column schema follows.
pub const HEADER_SIZE: usize = 0x20;

/// How the strings of a table are encoded.
#[derive(Debug, Clone, Copy, PartialEq, Eq, Structural)]
pub enum StringEncoding {
    ShiftJIS,
    UTF8,
}

/// The header fields, as stored.
#[derive(Debug, Clone, Copy, PartialEq, Eq, Structural)]
pub struct TableHeader {
    /// Table size minus 8.
    pub size_field: u32,
    pub marker: u8,
    pub string_encoding: StringEncoding,
    /// The three section offsets count from byte 8 of the table.
    pub rows_field: u16,
    pub strings_field: u32,
    pub data_field: u32,
    /// Offset of the table name in the string pool.
    pub name_field: u32,
    pub columns_field: u16,
    pub row_size_field: u16,
    pub rows_count_field: u32,
}

/// The encoding that the selector byte stands for.
pub open spec fn encoding_of(selector: u8) -> StringEncoding {
    if selector == 1 {
        StringEncoding::UTF8
    } else {
        StringEncoding::ShiftJIS
    }
}

/// The header at the start of `s`.
pub open spec fn table_header(s: Seq<u8>) -> TableHeader {
    TableHeader {
        size_field: be_u32(s, 4),
        marker: s[8],
        string_encoding: encoding_of(s[9]),
        rows_field: be_u16(s, 0xa),
        strings_field: be_u32(s, 0xc),
        data_field: be_u32(s, 0x10),
        name_field: be_u32(s, 0x14),
        columns_field: be_u16(s, 0x18),
        row_size_field: be_u16(s, 0x1a),
        rows_count_field: be_u32(s, 0x1c),
    }
}

impl TableHeader {
    /// Reads the header fields.
    pub fn new(s: &[u8]) -> (header: Self)
        requires
            s@.len() >= HEADER_SIZE,
        ensures
            header == table_header(s@),
    {
        let string_encoding = if s[9] == 1 {
            StringEncoding::UTF8
        } else {
            StringEncoding::ShiftJIS
        };
        TableHeader {
            size_field: read_be_u32(s, 4),
            marker: s[8],
            string_encoding,
            rows_field: read_be_u16(s, 0xa),
            strings_field: read_be_u32(s, 0xc),
            data_field: read_be_u32(s, 0x10),
            name_field: read_be_u32(s, 0x14),
            columns_field: read_be_u16(s, 0x18),
            row_size_field: read_be_u16(s, 0x1a),
            rows_count_field: read_be_u32(s, 0x1c),
        }
    }

    /// The size field: bytes of the table behind the first eight.
    pub fn size(&self) -> (v: u32)
        ensures
            v == self.size_field,
    {
        self.size_field
    }

    pub fn encoding(&self) -> (v: StringEncoding)
        ensures
            v == self.string_encoding,
    {
        self.string_encoding
    }

    /// Offset of the first row from the start of the table.
    pub open spec fn rows_start(self) -> int {
        self.rows_field + 8
    }

    /// Offset of the string pool from the start of the table.
    pub open spec fn strings_start(self) -> int {
        self.strings_field + 8
    }

    /// Offset of the data pool from the start of the table.
    pub open spec fn data_start(self) -> int {
        self.data_field + 8
    }

    pub fn rows_offset(&self) -> (v: u64)
        ensures
            v == self.rows_start(),
    {
        self.rows_field as u64 + 8
    }

    pub fn string_pool_offset(&self) -> (v: u64)
        ensures
            v == self.strings_start(),
    {
        self.strings_field as u64 + 8
    }

    pub fn data_pool_offset(&self) -> (v: u64)
        ensures
            v == self.data_start(),
    {
        self.data_field as u64 + 8
    }

    pub fn column_count(&self) -> (v: u16)
        ensures
            v == self.columns_field,
    {
        self.columns_field
    }

    /// Bytes of one row.
    pub fn row_size(&self) -> (v: u16)
        ensures
            v == self.row_size_field,
    {
        self.row_size_field
    }

    pub fn row_count(&self) -> (v: u32)
        ensures
            v == self.rows_count_field,
    {
        self.rows_count_field
    }
}

} // verus!
