//! What can be wrong with an `@UTF` table.

use vstd::prelude::*;

use crate::utils::text::{hexadecimal, numeral};

verus! {

/// Why a byte sequence is not an acceptable `@UTF` table.
#[derive(Debug, Clone, Copy, PartialEq, Eq, Structural)]
pub enum TableError {
    /// The bytes end inside a field.
    UnexpectedEof,
    /// No `@UTF` signature, or too short for the table header.
    InvalidTable,
    /// The header declares more bytes than there are.
    Truncated { declared: u64, available: u64 },
    /// The row, string and data sections are out of order or out of bounds.
    InvalidSectionOffsets,
    /// The rows reach into the string pool.
    RowsOverlapStrings,
    /// The column schema reaches into the rows.
    ColumnsOverlapRows,
    /// The row-stored columns need more bytes than a row has.
    RowSchemaTooWide,
    /// A column with a default value has a type of unknown size.
    UnsupportedColumnType,
    /// The data pool begins before the string pool.
    InvalidPoolOffsets,
    /// The last string of the pool has no terminating zero.
    UnterminatedString,
    /// A string of a UTF-8 pool is not valid UTF-8.
    InvalidUtf8,
    /// A Shift-JIS string is too long for the decoder on this platform.
    StringTooLong,
}

impl TableError {
    /// The message of the error.
    pub open spec fn message_text(self) -> Seq<char> {
        match self {
            TableError::UnexpectedEof => "failed to fill whole buffer"@,
            TableError::InvalidTable => "invalid or truncated @UTF table"@,
            TableError::Truncated { declared, available } => "truncated @UTF table: header declares 0x"@
                + numeral(declared as nat, 16) + ", buffer has 0x"@
                + numeral(available as nat, 16),
            TableError::InvalidSectionOffsets => "invalid @UTF section offsets"@,
            TableError::RowsOverlapStrings => "@UTF rows overlap the string pool"@,
            TableError::ColumnsOverlapRows => "@UTF columns overlap row data"@,
            TableError::RowSchemaTooWide => "@UTF row schema exceeds RowSize"@,
            TableError::UnsupportedColumnType => "unsupported CRI UTF column type"@,
            TableError::InvalidPoolOffsets => "invalid string/data pool offsets"@,
            TableError::UnterminatedString => "unterminated CRI string"@,
            TableError::InvalidUtf8 => "invalid utf-8 in CRI string"@,
            TableError::StringTooLong => "CRI string is too long to decode"@,
        }
    }

    /// The message of the error.
    pub fn message(&self) -> (text: String)
        ensures
            text@ == self.message_text(),
    {
        match self {
            TableError::UnexpectedEof => "failed to fill whole buffer".to_owned(),
            TableError::InvalidTable => "invalid or truncated @UTF table".to_owned(),
            TableError::Truncated { declared, available } => {
                let mut text = "truncated @UTF table: header declares 0x".to_owned();
                text.append(hexadecimal(*declared).as_str());
                text.append(", buffer has 0x");
                text.append(hexadecimal(*available).as_str());
                text
            },
            TableError::InvalidSectionOffsets => "invalid @UTF section offsets".to_owned(),
            TableError::RowsOverlapStrings => "@UTF rows overlap the string pool".to_owned(),
            TableError::ColumnsOverlapRows => "@UTF columns overlap row data".to_owned(),
            TableError::RowSchemaTooWide => "@UTF row schema exceeds RowSize".to_owned(),
            TableError::UnsupportedColumnType => "unsupported CRI UTF column type".to_owned(),
            TableError::InvalidPoolOffsets => "invalid string/data pool offsets".to_owned(),
            TableError::UnterminatedString => "unterminated CRI string".to_owned(),
            TableError::InvalidUtf8 => "invalid utf-8 in CRI string".to_owned(),
            TableError::StringTooLong => "CRI string is too long to decode".to_owned(),
        }
    }
}

} // verus!
