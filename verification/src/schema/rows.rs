//! Row values of `@UTF` tables.

use vstd::prelude::*;

use crate::schema::columns::{Column, ColumnFlag, ColumnType};
use crate::schema::error::TableError;
use crate::schema::header::TableHeader;
use crate::utils::bytes::{be_u16, be_u32, be_u64, read_be_u16, read_be_u32, read_be_u64};

verus! {

/// A reference into the data pool.
#[derive(Debug, Clone, Copy, PartialEq, Eq, Structural)]
pub struct DataValue {
    pub offset: u32,
    pub length: u32,
}

impl DataValue {
    /// An empty reference stands for no data.
    pub open spec fn absent(self) -> bool {
        self.length == 0
    }

    pub fn is_none(&self) -> (yes: bool)
        ensures
            yes == self.absent(),
    {
        self.length == 0
    }

    pub fn get_offset(&self) -> (v: u32)
        ensures
            v == self.offset,
    {
        self.offset
    }

    pub fn get_length(&self) -> (v: u32)
        ensures
            v == self.length,
    {
        self.length
    }
}

/// One value of a row. Floating-point values are kept as their bit patterns,
/// strings as offsets into the string pool.
#[derive(Debug, Clone, Copy, PartialEq, Eq, Structural)]
pub enum RowValue {
    /// The row has no value in this column.
    Absent,
    Byte(u8),
    SByte(i8),
    UInt16(u16),
    Int16(i16),
    UInt32(u32),
    Int32(i32),
    UInt64(u64),
    Int64(i64),
    Single(u32),
    Double(u64),
    String(u32),
    Data(DataValue),
    Guid(u64, u64),
}

/// The value of type `kind` stored at `at`.
pub open spec fn cell_value(kind: ColumnType, s: Seq<u8>, at: int) -> RowValue {
    match kind {
        ColumnType::Byte => RowValue::Byte(s[at]),
        ColumnType::SByte => RowValue::SByte(s[at] as i8),
        ColumnType::UInt16 => RowValue::UInt16(be_u16(s, at)),
        ColumnType::Int16 => RowValue::Int16(be_u16(s, at) as i16),
        ColumnType::UInt32 => RowValue::UInt32(be_u32(s, at)),
        ColumnType::Int32 => RowValue::Int32(be_u32(s, at) as i32),
        ColumnType::UInt64 => RowValue::UInt64(be_u64(s, at)),
        ColumnType::Int64 => RowValue::Int64(be_u64(s, at) as i64),
        ColumnType::Single => RowValue::Single(be_u32(s, at)),
        ColumnType::Double => RowValue::Double(be_u64(s, at)),
        ColumnType::String => RowValue::String(be_u32(s, at)),
        ColumnType::Data => RowValue::Data(
            DataValue { offset: be_u32(s, at), length: be_u32(s, at + 4) },
        ),
        ColumnType::Guid => RowValue::Guid(be_u64(s, at), be_u64(s, at + 8)),
        ColumnType::Invalid => RowValue::Absent,
    }
}

/// Reads the value of type `kind` stored at `at`.
pub fn row_value(kind: ColumnType, s: &[u8], at: usize) -> (v: RowValue)
    requires
        at + kind.width() <= s@.len(),
    ensures
        v == cell_value(kind, s@, at as int),
{
    assert(s@.len() == s.len());
    match kind {
        ColumnType::Byte => RowValue::Byte(s[at]),
        ColumnType::SByte => RowValue::SByte(s[at] as i8),
        ColumnType::UInt16 => RowValue::UInt16(read_be_u16(s, at)),
        ColumnType::Int16 => RowValue::Int16(read_be_u16(s, at) as i16),
        ColumnType::UInt32 => RowValue::UInt32(read_be_u32(s, at)),
        ColumnType::Int32 => RowValue::Int32(read_be_u32(s, at) as i32),
        ColumnType::UInt64 => RowValue::UInt64(read_be_u64(s, at)),
        ColumnType::Int64 => RowValue::Int64(read_be_u64(s, at) as i64),
        ColumnType::Single => RowValue::Single(read_be_u32(s, at)),
        ColumnType::Double => RowValue::Double(read_be_u64(s, at)),
        ColumnType::String => RowValue::String(read_be_u32(s, at)),
        ColumnType::Data => RowValue::Data(
            DataValue { offset: read_be_u32(s, at), length: read_be_u32(s, at + 4) },
        ),
        ColumnType::Guid => RowValue::Guid(read_be_u64(s, at), read_be_u64(s, at + 8)),
        ColumnType::Invalid => RowValue::Absent,
    }
}

/// Bytes that the first `count` columns take in a row.
pub open spec fn stored_width(columns: Seq<Column>, count: nat) -> int
    decreases count,
{
    if count == 0 {
        0
    } else {
        let before = stored_width(columns, (count - 1) as nat);
        let flag = columns[count - 1].flag;
        if flag.row_stored() {
            before + flag.kind().width()
        } else {
            before
        }
    }
}

/// The values of the row whose bytes begin at `at`: a column that is not
/// stored in rows has no value there.
pub open spec fn row_at(s: Seq<u8>, columns: Seq<Column>, at: int) -> Seq<RowValue> {
    Seq::new(
        columns.len(),
        |j: int|
            if columns[j].flag.row_stored() {
                cell_value(columns[j].flag.kind(), s, at + stored_width(columns, j as nat))
            } else {
                RowValue::Absent
            },
    )
}

/// The rows of the table `s`.
pub open spec fn rows_of(s: Seq<u8>, header: TableHeader, columns: Seq<Column>) -> Seq<
    Seq<RowValue>,
> {
    Seq::new(
        header.rows_count_field as nat,
        |r: int| row_at(s, columns, header.rows_start() + r * header.row_size_field),
    )
}

/// The widths of a growing prefix of the columns do not decrease.
pub proof fn lemma_stored_width_monotonic(columns: Seq<Column>, few: nat, many: nat)
    requires
        few <= many <= columns.len(),
    ensures
        0 <= stored_width(columns, few) <= stored_width(columns, many) <= 16 * many,
    decreases many,
{
    if few < many {
        lemma_stored_width_monotonic(columns, few, (many - 1) as nat);
    } else if few > 0 {
        lemma_stored_width_monotonic(columns, (few - 1) as nat, (many - 1) as nat);
    }
}

/// One row of a table.
#[derive(Debug)]
pub struct Row {
    pub values: Vec<RowValue>,
}

impl View for Row {
    type V = Seq<RowValue>;

    open spec fn view(&self) -> Seq<RowValue> {
        self.values@
    }
}

/// The values of a list of rows.
pub open spec fn rows_view(rows: Seq<Row>) -> Seq<Seq<RowValue>> {
    Seq::new(rows.len(), |r: int| rows[r]@)
}

impl Row {
    /// The value in the column `index`.
    pub fn get(&self, index: usize) -> (v: Option<&RowValue>)
        ensures
            match v {
                Some(value) => index < self@.len() && *value == self@[index as int],
                None => index >= self@.len(),
            },
    {
        if index < self.values.len() {
            Some(&self.values[index])
        } else {
            None
        }
    }

    /// Bytes that the row-stored columns take in a row.
    pub fn schema_width(columns: &Vec<Column>) -> (width: usize)
        requires
            columns@.len() <= u16::MAX,
        ensures
            width == stored_width(columns@, columns@.len()),
    {
        let mut width: usize = 0;
        let mut i: usize = 0;
        while i < columns.len()
            invariant
                i <= columns@.len() <= u16::MAX,
                width == stored_width(columns@, i as nat),
                width <= 16 * i,
            decreases columns@.len() - i,
        {
            let flag = columns[i].get_value();
            if flag.get_flags().contains(ColumnFlag::ROW_STORAGE) {
                width = width + flag.get_type().get_size() as usize;
            }
            i = i + 1;
        }
        width
    }

    fn read_at(s: &[u8], columns: &Vec<Column>, at: usize) -> (row: Row)
        requires
            columns@.len() <= u16::MAX,
            at + stored_width(columns@, columns@.len()) <= s@.len(),
        ensures
            row@ == row_at(s@, columns@, at as int),
    {
        let mut values: Vec<RowValue> = Vec::new();
        let mut cursor: usize = at;
        let mut i: usize = 0;
        assert(s@.len() == s.len());
        while i < columns.len()
            invariant
                i <= columns@.len() <= u16::MAX,
                s@.len() == s.len(),
                at + stored_width(columns@, columns@.len()) <= s@.len(),
                cursor == at + stored_width(columns@, i as nat),
                values@.len() == i,
                forall|j: int|
                    0 <= j < i ==> #[trigger] values@[j] == row_at(s@, columns@, at as int)[j],
            decreases columns@.len() - i,
        {
            let flag = columns[i].get_value();
            proof {
                lemma_stored_width_monotonic(columns@, (i + 1) as nat, columns@.len());
            }
            if flag.get_flags().contains(ColumnFlag::ROW_STORAGE) {
                let kind = flag.get_type();
                values.push(row_value(kind, s, cursor));
                cursor = cursor + kind.get_size() as usize;
            } else {
                values.push(RowValue::Absent);
            }
            i = i + 1;
        }
        assert(values@ =~= row_at(s@, columns@, at as int));
        Row { values }
    }

    /// Reads the rows of the table `s`.
    pub fn new_list(s: &[u8], header: &TableHeader, columns: &Vec<Column>) -> (r: Result<
        Vec<Row>,
        TableError,
    >)
        requires
            columns@.len() <= u16::MAX,
        ensures
            if stored_width(columns@, columns@.len()) > header.row_size_field {
                r == Err::<Vec<Row>, TableError>(TableError::RowSchemaTooWide)
            } else if header.rows_start() + header.row_size_field * header.rows_count_field
                > s@.len() {
                r == Err::<Vec<Row>, TableError>(TableError::UnexpectedEof)
            } else {
                r matches Ok(rows) && rows_view(rows@) == rows_of(s@, *header, columns@)
            },
    {
        let width: usize = Row::schema_width(columns);
        let row_size: u16 = header.row_size();
        let count: u32 = header.row_count();
        if width > row_size as usize {
            return Err(TableError::RowSchemaTooWide);
        }
        assert(row_size * count <= 0xffff * 0xffff_ffff) by (nonlinear_arith)
            requires
                row_size <= 0xffff,
                count <= 0xffff_ffff,
        ;
        if header.rows_offset() + row_size as u64 * count as u64 > s.len() as u64 {
            return Err(TableError::UnexpectedEof);
        }
        let mut rows: Vec<Row> = Vec::new();
        let mut at: usize = header.rows_offset() as usize;
        let mut i: u32 = 0;
        assert(0 * row_size == 0);
        while i < count
            invariant
                i <= count,
                count == header.rows_count_field,
                row_size == header.row_size_field,
                columns@.len() <= u16::MAX,
                stored_width(columns@, columns@.len()) <= row_size,
                s@.len() == s.len(),
                header.rows_start() + row_size * count <= s@.len(),
                at == header.rows_start() + i * row_size,
                rows@.len() == i,
                forall|r: int|
                    0 <= r < i ==> (#[trigger] rows@[r])@ == rows_of(s@, *header, columns@)[r],
            decreases count - i,
        {
            proof {
                lemma_stored_width_monotonic(columns@, 0, columns@.len());
                assert(i * row_size + row_size == (i + 1) * row_size <= row_size * count)
                    by (nonlinear_arith)
                    requires
                        i + 1 <= count,
                        row_size >= 0,
                ;
            }
            rows.push(Row::read_at(s, columns, at));
            at = at + row_size as usize;
            i = i + 1;
        }
        assert(rows_view(rows@) =~= rows_of(s@, *header, columns@));
        Ok(rows)
    }
}

} // verus!
