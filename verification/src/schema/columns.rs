//! Column schemas of `@UTF` tables.

use vstd::prelude::*;

use crate::schema::error::TableError;
use crate::schema::header::{TableHeader, HEADER_SIZE};
use crate::schema::rows::{cell_value, row_value, RowValue};
use crate::utils::bytes::{be_u32, read_be_u32};

verus! {

/// A set of column flags: the upper half of a column's flag byte.
#[derive(Debug, Clone, Copy, PartialEq, Eq, Structural)]
pub struct ColumnFlag {
    pub bits: u8,
}

impl ColumnFlag {
    /// The column has a name.
    pub const NAME: u8 = 0x10;

    /// The column has one value for all rows, stored in the schema.
    pub const DEFAULT_VALUE: u8 = 0x20;

    /// The column's values are stored in the rows.
    pub const ROW_STORAGE: u8 = 0x40;

    /// Every bit of `flag` is set.
    pub open spec fn has(self, flag: u8) -> bool {
        self.bits & flag == flag
    }

    pub fn contains(&self, flag: u8) -> (yes: bool)
        ensures
            yes == self.has(flag),
    {
        self.bits & flag == flag
    }
}

/// The type of a column's values.
#[derive(Debug, Clone, Copy, PartialEq, Eq, Structural)]
pub enum ColumnType {
    Byte,
    SByte,
    UInt16,
    Int16,
    UInt32,
    Int32,
    UInt64,
    Int64,
    Single,
    Double,
    String,
    Data,
    Guid,
    Invalid,
}

impl ColumnType {
    /// Bytes of one value.
    pub open spec fn width(self) -> u32 {
        match self {
            ColumnType::Byte | ColumnType::SByte => 1,
            ColumnType::UInt16 | ColumnType::Int16 => 2,
            ColumnType::UInt32 | ColumnType::Int32 | ColumnType::Single | ColumnType::String => 4,
            ColumnType::UInt64 | ColumnType::Int64 | ColumnType::Double | ColumnType::Data => 8,
            ColumnType::Guid => 16,
            ColumnType::Invalid => 0,
        }
    }

    pub fn get_size(&self) -> (size: u32)
        ensures
            size == self.width(),
    {
        match self {
            ColumnType::Byte | ColumnType::SByte => 1,
            ColumnType::UInt16 | ColumnType::Int16 => 2,
            ColumnType::UInt32 | ColumnType::Int32 | ColumnType::Single | ColumnType::String => 4,
            ColumnType::UInt64 | ColumnType::Int64 | ColumnType::Double | ColumnType::Data => 8,
            ColumnType::Guid => 16,
            ColumnType::Invalid => 0,
        }
    }
}

/// A column's flag byte: flags in the upper half, the type in the lower.
#[derive(Debug, Clone, Copy, PartialEq, Eq, Structural)]
pub struct ColumnValue {
    pub byte: u8,
}

/// The column type with the number `code`.
pub open spec fn column_type(code: int) -> ColumnType {
    if code == 0 {
        ColumnType::Byte
    } else if code == 1 {
        ColumnType::SByte
    } else if code == 2 {
        ColumnType::UInt16
    } else if code == 3 {
        ColumnType::Int16
    } else if code == 4 {
        ColumnType::UInt32
    } else if code == 5 {
        ColumnType::Int32
    } else if code == 6 {
        ColumnType::UInt64
    } else if code == 7 {
        ColumnType::Int64
    } else if code == 8 {
        ColumnType::Single
    } else if code == 9 {
        ColumnType::Double
    } else if code == 10 {
        ColumnType::String
    } else if code == 11 {
        ColumnType::Data
    } else if code == 12 {
        ColumnType::Guid
    } else {
        ColumnType::Invalid
    }
}

impl ColumnValue {
    pub open spec fn flags(self) -> ColumnFlag {
        ColumnFlag { bits: self.byte & 0xf0 }
    }

    pub open spec fn kind(self) -> ColumnType {
        column_type((self.byte & 0x0f) as int)
    }

    pub open spec fn named(self) -> bool {
        self.flags().has(ColumnFlag::NAME)
    }

    pub open spec fn has_default(self) -> bool {
        self.flags().has(ColumnFlag::DEFAULT_VALUE)
    }

    pub open spec fn row_stored(self) -> bool {
        self.flags().has(ColumnFlag::ROW_STORAGE)
    }

    pub fn get_flags(&self) -> (flags: ColumnFlag)
        ensures
            flags == self.flags(),
    {
        ColumnFlag { bits: self.byte & 0xf0 }
    }

    pub fn get_type(&self) -> (kind: ColumnType)
        ensures
            kind == self.kind(),
    {
        match self.byte & 0x0f {
            0 => ColumnType::Byte,
            1 => ColumnType::SByte,
            2 => ColumnType::UInt16,
            3 => ColumnType::Int16,
            4 => ColumnType::UInt32,
            5 => ColumnType::Int32,
            6 => ColumnType::UInt64,
            7 => ColumnType::Int64,
            8 => ColumnType::Single,
            9 => ColumnType::Double,
            10 => ColumnType::String,
            11 => ColumnType::Data,
            12 => ColumnType::Guid,
            _ => ColumnType::Invalid,
        }
    }
}

/// One column of a table.
#[derive(Debug, Clone, Copy, PartialEq, Eq, Structural)]
pub struct Column {
    pub flag: ColumnValue,
    /// Offset of the name in the string pool; `u32::MAX` for a nameless column.
    pub string_offset: u32,
    pub default: Option<RowValue>,
}

/// The column schema entry at `at`, and the offset behind it.
pub open spec fn column_at(s: Seq<u8>, at: int) -> Result<(Column, int), TableError> {
    if at + 1 > s.len() {
        Err(TableError::UnexpectedEof)
    } else {
        let flag = ColumnValue { byte: s[at] };
        let named_end = if flag.named() {
            at + 5
        } else {
            at + 1
        };
        let string_offset = if flag.named() {
            be_u32(s, at + 1)
        } else {
            u32::MAX
        };
        if named_end > s.len() {
            Err(TableError::UnexpectedEof)
        } else if !flag.has_default() {
            Ok((Column { flag, string_offset, default: None }, named_end))
        } else if flag.kind().width() == 0 {
            Err(TableError::UnsupportedColumnType)
        } else if named_end + flag.kind().width() > s.len() {
            Err(TableError::UnexpectedEof)
        } else {
            Ok(
                (
                    Column {
                        flag,
                        string_offset,
                        default: Some(cell_value(flag.kind(), s, named_end)),
                    },
                    named_end + flag.kind().width(),
                ),
            )
        }
    }
}

/// The first `count` columns of the schema, and the offset behind them.
pub open spec fn columns_of(s: Seq<u8>, count: nat) -> Result<(Seq<Column>, int), TableError>
    decreases count,
{
    if count == 0 {
        Ok((Seq::empty(), HEADER_SIZE as int))
    } else {
        match columns_of(s, (count - 1) as nat) {
            Err(e) => Err(e),
            Ok((columns, at)) => match column_at(s, at) {
                Err(e) => Err(e),
                Ok((column, end)) => Ok((columns.push(column), end)),
            },
        }
    }
}

/// Once a column cannot be read, no longer schema can be read either.
proof fn lemma_columns_error(s: Seq<u8>, few: nat, many: nat)
    requires
        few <= many,
        columns_of(s, few) is Err,
    ensures
        columns_of(s, many) == columns_of(s, few),
    decreases many,
{
    if few < many {
        lemma_columns_error(s, few, (many - 1) as nat);
    }
}

/// Reading columns moves forward, inside the bytes.
pub proof fn lemma_columns_bounds(s: Seq<u8>, count: nat)
    ensures
        columns_of(s, count) matches Ok((columns, at)) ==> columns.len() == count && HEADER_SIZE
            <= at && (count > 0 || s.len() >= HEADER_SIZE ==> at <= s.len()),
    decreases count,
{
    if count > 0 {
        lemma_columns_bounds(s, (count - 1) as nat);
    }
}

impl Column {
    pub(crate) fn new(flag: ColumnValue, string_offset: u32, default: Option<RowValue>) -> (c: Self)
        ensures
            c == (Column { flag, string_offset, default }),
    {
        Column { flag, string_offset, default }
    }

    pub fn get_value(&self) -> (v: ColumnValue)
        ensures
            v == self.flag,
    {
        self.flag
    }

    pub fn get_string_offset(&self) -> (v: u32)
        ensures
            v == self.string_offset,
    {
        self.string_offset
    }

    pub fn get_default_value(&self) -> (v: Option<&RowValue>)
        ensures
            match self.default {
                Some(d) => v == Some(&d),
                None => v is None,
            },
    {
        self.default.as_ref()
    }

    /// Reads one schema entry.
    fn read_at(s: &[u8], at: usize) -> (r: Result<(Column, usize), TableError>)
        ensures
            match column_at(s@, at as int) {
                Err(e) => r == Err::<(Column, usize), TableError>(e),
                Ok((column, end)) => r matches Ok((c, e)) && c == column && e == end,
            },
    {
        if at >= s.len() {
            return Err(TableError::UnexpectedEof);
        }
        let flag = ColumnValue { byte: s[at] };
        let flags = flag.get_flags();
        let mut end: usize = at + 1;
        let mut string_offset: u32 = u32::MAX;
        if flags.contains(ColumnFlag::NAME) {
            if s.len() - end < 4 {
                return Err(TableError::UnexpectedEof);
            }
            string_offset = read_be_u32(s, end);
            end = end + 4;
        }
        if !flags.contains(ColumnFlag::DEFAULT_VALUE) {
            return Ok((Column::new(flag, string_offset, None), end));
        }
        let kind = flag.get_type();
        let size: usize = kind.get_size() as usize;
        if size == 0 {
            return Err(TableError::UnsupportedColumnType);
        }
        if s.len() - end < size {
            return Err(TableError::UnexpectedEof);
        }
        let value = row_value(kind, s, end);
        Ok((Column::new(flag, string_offset, Some(value)), end + size))
    }

    /// Reads the column schema of the table `s`. The second part of the result
    /// is the offset behind the schema.
    pub fn new_list(s: &[u8], header: &TableHeader) -> (r: Result<
        (Vec<Column>, usize),
        TableError,
    >)
        ensures
            match columns_of(s@, header.columns_field as nat) {
                Err(e) => r == Err::<(Vec<Column>, usize), TableError>(e),
                Ok((columns, at)) => r matches Ok((c, p)) && c@ == columns && p == at,
            },
    {
        let count: u16 = header.column_count();
        let mut columns: Vec<Column> = Vec::new();
        let mut at: usize = HEADER_SIZE;
        let mut i: u16 = 0;
        while i < count
            invariant
                i <= count,
                count == header.columns_field,
                columns_of(s@, i as nat) == Ok::<(Seq<Column>, int), TableError>(
                    (columns@, at as int),
                ),
            decreases count - i,
        {
            let read = Column::read_at(s, at);
            proof {
                lemma_columns_bounds(s@, (i + 1) as nat);
            }
            match read {
                Err(e) => {
                    proof {
                        lemma_columns_error(s@, (i + 1) as nat, count as nat);
                    }
                    return Err(e);
                },
                Ok((column, end)) => {
                    columns.push(column);
                    at = end;
                },
            }
            i = i + 1;
        }
        Ok((columns, at))
    }
}

} // verus!
