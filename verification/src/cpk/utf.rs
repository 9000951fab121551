//! Serialises `@UTF` tables.

use vstd::hash_map::StringHashMap;
use vstd::prelude::*;
use vstd::utf8::encode_utf8;

use crate::cpk::encrypt::table::utf_signature;
use crate::cpk::error::{CpkWriterError, WriterErrorView};
use crate::schema::header::HEADER_SIZE;
use crate::utils::bytes::{be16, be32, be64, push_be_u16, push_be_u32, push_be_u64, push_bytes};

verus! {

/// The types of columns that the writer emits.
#[derive(Debug, Clone, Copy, PartialEq, Eq, Structural)]
pub enum UtfType {
    UInt16,
    UInt32,
    UInt64,
    String,
    Data,
}

impl UtfType {
    /// Bytes of one value.
    pub open spec fn width(self) -> int {
        match self {
            UtfType::UInt16 => 2,
            UtfType::UInt32 | UtfType::String => 4,
            UtfType::UInt64 | UtfType::Data => 8,
        }
    }

    /// The number of the type in a column's flag byte.
    pub open spec fn code(self) -> u8 {
        match self {
            UtfType::UInt16 => 2,
            UtfType::UInt32 => 4,
            UtfType::UInt64 => 6,
            UtfType::String => 10,
            UtfType::Data => 11,
        }
    }

    /// Flag byte of a named, row-stored column of this type.
    pub open spec fn flag_byte(self) -> u8 {
        (0x50 + self.code()) as u8
    }

    pub fn size(self) -> (size: usize)
        ensures
            size == self.width(),
    {
        match self {
            UtfType::UInt16 => 2,
            UtfType::UInt32 | UtfType::String => 4,
            UtfType::UInt64 | UtfType::Data => 8,
        }
    }

    fn flag(self) -> (byte: u8)
        ensures
            byte == self.flag_byte(),
    {
        match self {
            UtfType::UInt16 => 0x52,
            UtfType::UInt32 => 0x54,
            UtfType::UInt64 => 0x56,
            UtfType::String => 0x5a,
            UtfType::Data => 0x5b,
        }
    }
}

/// A column to emit.
#[derive(Debug)]
pub struct UtfColumn {
    pub name: String,
    pub value_type: UtfType,
}

impl UtfColumn {
    pub fn new(name: &str, value_type: UtfType) -> (column: Self)
        ensures
            column@ == (ColumnModel { name: name@, kind: value_type }),
    {
        UtfColumn { name: name.to_owned(), value_type }
    }
}

/// A value to emit.
#[derive(Debug)]
pub enum UtfValue {
    UInt16(u16),
    UInt32(u32),
    UInt64(u64),
    String(String),
    Data(Vec<u8>),
}

impl UtfValue {
    pub fn value_type(&self) -> (kind: UtfType)
        ensures
            kind == self@.kind(),
    {
        match self {
            UtfValue::UInt16(_) => UtfType::UInt16,
            UtfValue::UInt32(_) => UtfType::UInt32,
            UtfValue::UInt64(_) => UtfType::UInt64,
            UtfValue::String(_) => UtfType::String,
            UtfValue::Data(_) => UtfType::Data,
        }
    }
}

impl UtfValue {
    /// Bytes that the value takes in the data pool.
    fn data_len(&self) -> (len: usize)
        ensures
            len == (match self@ {
                Cell::Blob(bytes) => bytes.len(),
                _ => 0,
            }),
    {
        match self {
            UtfValue::Data(bytes) => bytes.len(),
            _ => 0,
        }
    }
}

/// A column as its name and type.
pub struct ColumnModel {
    pub name: Seq<char>,
    pub kind: UtfType,
}

/// A value as what it holds.
pub enum Cell {
    UInt16(u16),
    UInt32(u32),
    UInt64(u64),
    Text(Seq<char>),
    Blob(Seq<u8>),
}

impl Cell {
    pub open spec fn kind(self) -> UtfType {
        match self {
            Cell::UInt16(_) => UtfType::UInt16,
            Cell::UInt32(_) => UtfType::UInt32,
            Cell::UInt64(_) => UtfType::UInt64,
            Cell::Text(_) => UtfType::String,
            Cell::Blob(_) => UtfType::Data,
        }
    }
}

/// A table as its name, its columns and its rows.
#[verifier::ext_equal]
pub struct TableModel {
    pub name: Seq<char>,
    pub columns: Seq<ColumnModel>,
    pub rows: Seq<Seq<Cell>>,
}

impl View for UtfColumn {
    type V = ColumnModel;

    open spec fn view(&self) -> ColumnModel {
        ColumnModel { name: self.name@, kind: self.value_type }
    }
}

impl View for UtfValue {
    type V = Cell;

    open spec fn view(&self) -> Cell {
        match self {
            UtfValue::UInt16(v) => Cell::UInt16(*v),
            UtfValue::UInt32(v) => Cell::UInt32(*v),
            UtfValue::UInt64(v) => Cell::UInt64(*v),
            UtfValue::String(v) => Cell::Text(v@),
            UtfValue::Data(v) => Cell::Blob(v@),
        }
    }
}

/// The columns of a list.
pub open spec fn columns_view(columns: Seq<UtfColumn>) -> Seq<ColumnModel> {
    Seq::new(columns.len(), |j: int| columns[j]@)
}

/// The values of a row.
pub open spec fn cells_view(row: Seq<UtfValue>) -> Seq<Cell> {
    Seq::new(row.len(), |j: int| row[j]@)
}

/// The values of a list of rows.
pub open spec fn cell_rows_view(rows: Seq<Vec<UtfValue>>) -> Seq<Seq<Cell>> {
    Seq::new(rows.len(), |r: int| cells_view(rows[r]@))
}

/// A growing string pool: its bytes, and where each text stands in them.
#[verifier::ext_equal]
pub struct Pool {
    pub bytes: Seq<u8>,
    pub offsets: Map<Seq<char>, usize>,
}

/// The pool before any text was put in: offset zero is the empty text.
pub open spec fn empty_pool() -> Pool {
    Pool { bytes: seq![0u8], offsets: Map::empty().insert(Seq::empty(), 0usize) }
}

/// The pool with `text` in it; each text stands there once.
pub open spec fn interned(p: Pool, text: Seq<char>) -> Pool {
    if p.offsets.contains_key(text) {
        p
    } else {
        Pool {
            bytes: p.bytes + encode_utf8(text).push(0),
            offsets: p.offsets.insert(text, p.bytes.len() as usize),
        }
    }
}

/// The pool with the texts among the first `count` values of a row in it.
pub open spec fn pool_cells(p: Pool, row: Seq<Cell>, count: nat) -> Pool
    decreases count,
{
    if count == 0 {
        p
    } else {
        let q = pool_cells(p, row, (count - 1) as nat);
        match row[count - 1] {
            Cell::Text(text) => interned(q, text),
            _ => q,
        }
    }
}

/// The data of the first `count` values of a row.
pub open spec fn data_cells(row: Seq<Cell>, count: nat) -> Seq<u8>
    decreases count,
{
    if count == 0 {
        Seq::empty()
    } else {
        let before = data_cells(row, (count - 1) as nat);
        match row[count - 1] {
            Cell::Blob(bytes) => before + bytes,
            _ => before,
        }
    }
}

/// A value as the row stores it, with the text offsets and the offset of its data.
pub open spec fn cell_bytes(cell: Cell, offsets: Map<Seq<char>, usize>, data_at: int) -> Seq<u8> {
    match cell {
        Cell::UInt16(v) => be16(v),
        Cell::UInt32(v) => be32(v),
        Cell::UInt64(v) => be64(v),
        Cell::Text(text) => be32(offsets[text] as u32),
        Cell::Blob(bytes) => be32(data_at as u32) + be32(bytes.len() as u32),
    }
}

impl TableModel {
    /// Bytes that the first `count` columns take in a row.
    pub open spec fn width(self, count: nat) -> int
        decreases count,
    {
        if count == 0 {
            0
        } else {
            self.width((count - 1) as nat) + self.columns[count - 1].kind.width()
        }
    }

    /// Bytes of a row.
    pub open spec fn row_size(self) -> int {
        self.width(self.columns.len())
    }

    /// Every row has one value of the right type for each column.
    pub open spec fn shaped(self) -> bool {
        &&& forall|r: int| 0 <= r < self.rows.len() ==> #[trigger] self.row_shaped(r)
    }

    /// The row `r` has one value of the right type for each column.
    pub open spec fn row_shaped(self, r: int) -> bool {
        &&& self.rows[r].len() == self.columns.len()
        &&& forall|c: int|
            0 <= c < self.columns.len() ==> #[trigger] self.rows[r][c].kind()
                == self.columns[c].kind
    }

    /// The pool with the table name and the first `count` column names.
    pub open spec fn pool_names(self, count: nat) -> Pool
        decreases count,
    {
        if count == 0 {
            interned(empty_pool(), self.name)
        } else {
            interned(self.pool_names((count - 1) as nat), self.columns[count - 1].name)
        }
    }

    /// The pool with all names and the texts of the first `count` rows.
    pub open spec fn pool_rows(self, count: nat) -> Pool
        decreases count,
    {
        if count == 0 {
            self.pool_names(self.columns.len())
        } else {
            pool_cells(
                self.pool_rows((count - 1) as nat),
                self.rows[count - 1],
                self.rows[count - 1].len(),
            )
        }
    }

    /// The pool of the table.
    pub open spec fn pool(self) -> Pool {
        self.pool_rows(self.rows.len())
    }

    /// The data of the first `count` rows.
    pub open spec fn data_rows(self, count: nat) -> Seq<u8>
        decreases count,
    {
        if count == 0 {
            Seq::empty()
        } else {
            self.data_rows((count - 1) as nat) + data_cells(
                self.rows[count - 1],
                self.rows[count - 1].len(),
            )
        }
    }

    /// The data pool of the table.
    pub open spec fn data(self) -> Seq<u8> {
        self.data_rows(self.rows.len())
    }

    /// Offset in the data pool of the data of a value.
    pub open spec fn data_at(self, r: int, c: int) -> int {
        (self.data_rows(r as nat).len() + data_cells(self.rows[r], c as nat).len()) as int
    }

    /// The first `count` columns of the schema.
    pub open spec fn column_bytes(self, count: nat) -> Seq<u8>
        decreases count,
    {
        if count == 0 {
            Seq::empty()
        } else {
            let column = self.columns[count - 1];
            self.column_bytes((count - 1) as nat) + (seq![column.kind.flag_byte()] + be32(
                self.pool().offsets[column.name] as u32,
            ))
        }
    }

    /// The first `count` values of the row `r`.
    pub open spec fn row_bytes(self, r: int, count: nat) -> Seq<u8>
        decreases count,
    {
        if count == 0 {
            Seq::empty()
        } else {
            self.row_bytes(r, (count - 1) as nat) + cell_bytes(
                self.rows[r][count - 1],
                self.pool().offsets,
                self.data_at(r, count - 1),
            )
        }
    }

    /// The first `count` rows.
    pub open spec fn rows_bytes(self, count: nat) -> Seq<u8>
        decreases count,
    {
        if count == 0 {
            Seq::empty()
        } else {
            self.rows_bytes((count - 1) as nat) + self.row_bytes(count - 1, self.columns.len())
        }
    }

    /// Offset of the first row.
    pub open spec fn rows_start(self) -> int {
        HEADER_SIZE + 5 * self.columns.len()
    }

    /// Offset of the string pool.
    pub open spec fn strings_start(self) -> int {
        self.rows_start() + self.row_size() * self.rows.len()
    }

    /// Offset of the data pool.
    pub open spec fn data_start(self) -> int {
        self.strings_start() + self.pool().bytes.len()
    }

    /// Bytes of the table.
    pub open spec fn total(self) -> int {
        self.data_start() + self.data().len()
    }

    /// The table can be stored: its rows match its columns, and every count and
    /// offset fits in its field.
    pub open spec fn fits(self) -> bool {
        &&& self.shaped()
        &&& self.rows.len() <= u32::MAX
        &&& self.row_size() <= u16::MAX
        &&& self.rows_start() - 8 <= u16::MAX
        &&& self.total() - 8 <= u32::MAX
        &&& self.total() <= usize::MAX
    }

    /// The header of the table.
    #[verifier::opaque]
    pub open spec fn header_bytes(self) -> Seq<u8> {
        utf_signature() + be32((self.total() - 8) as u32) + seq![0u8, 1u8] + be16(
            (self.rows_start() - 8) as u16,
        ) + be32((self.strings_start() - 8) as u32) + be32((self.data_start() - 8) as u32) + be32(
            self.pool().offsets[self.name] as u32,
        ) + be16(self.columns.len() as u16) + be16(self.row_size() as u16) + be32(
            self.rows.len() as u32,
        )
    }

    /// The table: header, schema, rows, string pool and data pool.
    #[verifier::opaque]
    pub open spec fn bytes(self) -> Seq<u8> {
        self.header_bytes() + self.column_bytes(self.columns.len()) + self.rows_bytes(
            self.rows.len(),
        ) + self.pool().bytes + self.data()
    }
}

/// A text that stands in the pool stays where it is.
proof fn lemma_pool_cells_keep(p: Pool, row: Seq<Cell>, count: nat, text: Seq<char>)
    requires
        p.offsets.contains_key(text),
    ensures
        pool_cells(p, row, count).offsets.contains_key(text),
        pool_cells(p, row, count).offsets[text] == p.offsets[text],
    decreases count,
{
    if count > 0 {
        lemma_pool_cells_keep(p, row, (count - 1) as nat, text);
    }
}

/// A text that stands in the pool stays where it is.
proof fn lemma_pool_rows_keep(m: TableModel, few: nat, many: nat, text: Seq<char>)
    requires
        few <= many,
        m.pool_rows(few).offsets.contains_key(text),
    ensures
        m.pool_rows(many).offsets.contains_key(text),
        m.pool_rows(many).offsets[text] == m.pool_rows(few).offsets[text],
    decreases many,
{
    if few < many {
        lemma_pool_rows_keep(m, few, (many - 1) as nat, text);
        lemma_pool_cells_keep(
            m.pool_rows((many - 1) as nat),
            m.rows[many - 1],
            m.rows[many - 1].len(),
            text,
        );
    }
}

/// A text that stands in the pool stays where it is.
proof fn lemma_pool_names_keep(m: TableModel, few: nat, many: nat, text: Seq<char>)
    requires
        few <= many,
        m.pool_names(few).offsets.contains_key(text),
    ensures
        m.pool_names(many).offsets.contains_key(text),
        m.pool_names(many).offsets[text] == m.pool_names(few).offsets[text],
    decreases many,
{
    if few < many {
        lemma_pool_names_keep(m, few, (many - 1) as nat, text);
    }
}

/// The table name stands in the pool.
pub proof fn lemma_name_in_pool(m: TableModel)
    ensures
        m.pool().offsets.contains_key(m.name),
        m.pool().offsets[m.name] == m.pool_names(0).offsets[m.name],
{
    lemma_pool_names_keep(m, 0, m.columns.len(), m.name);
    lemma_pool_rows_keep(m, 0, m.rows.len(), m.name);
}

/// Every column name stands in the pool.
pub proof fn lemma_column_in_pool(m: TableModel, j: int)
    requires
        0 <= j < m.columns.len(),
    ensures
        m.pool().offsets.contains_key(m.columns[j].name),
        m.pool().offsets[m.columns[j].name] == m.pool_names((j + 1) as nat).offsets[m.columns[j].name],
{
    lemma_pool_names_keep(m, (j + 1) as nat, m.columns.len(), m.columns[j].name);
    lemma_pool_rows_keep(m, 0, m.rows.len(), m.columns[j].name);
}

/// Every text of a row stands in the pool.
pub proof fn lemma_text_in_pool(m: TableModel, r: int, c: int)
    requires
        0 <= r < m.rows.len(),
        0 <= c < m.rows[r].len(),
        m.rows[r][c] is Text,
    ensures
        m.pool().offsets.contains_key(m.rows[r][c]->Text_0),
{
    let text = m.rows[r][c]->Text_0;
    let p = m.pool_rows(r as nat);
    lemma_pool_cells_reach(p, m.rows[r], (c + 1) as nat, m.rows[r].len(), text);
    lemma_pool_rows_keep(m, (r + 1) as nat, m.rows.len(), text);
}

/// A text put in the pool stays in it.
proof fn lemma_pool_cells_reach(p: Pool, row: Seq<Cell>, few: nat, many: nat, text: Seq<char>)
    requires
        few <= many,
        pool_cells(p, row, few).offsets.contains_key(text),
    ensures
        pool_cells(p, row, many).offsets.contains_key(text),
    decreases many,
{
    if few < many {
        lemma_pool_cells_reach(p, row, few, (many - 1) as nat, text);
    }
}

/// Columns have no negative width.
pub proof fn lemma_width_nonnegative(m: TableModel, count: nat)
    ensures
        m.width(count) >= 0,
    decreases count,
{
    if count > 0 {
        lemma_width_nonnegative(m, (count - 1) as nat);
    }
}

/// A table to emit.
#[derive(Debug)]
pub struct UtfTableBuilder {
    pub name: String,
    pub columns: Vec<UtfColumn>,
    pub rows: Vec<Vec<UtfValue>>,
}

impl View for UtfTableBuilder {
    type V = TableModel;

    open spec fn view(&self) -> TableModel {
        TableModel {
            name: self.name@,
            columns: columns_view(self.columns@),
            rows: cell_rows_view(self.rows@),
        }
    }
}

struct PoolBuilder {
    bytes: Vec<u8>,
    offsets: StringHashMap<usize>,
}

impl View for PoolBuilder {
    type V = Pool;

    closed spec fn view(&self) -> Pool {
        Pool { bytes: self.bytes@, offsets: self.offsets@ }
    }
}

impl PoolBuilder {
    fn new() -> (pool: Self)
        ensures
            pool@ == empty_pool(),
    {
        let mut bytes: Vec<u8> = Vec::new();
        bytes.push(0);
        let mut offsets: StringHashMap<usize> = StringHashMap::new();
        let nothing = String::new();
        assert(nothing@ =~= Seq::<char>::empty());
        offsets.insert(nothing, 0);
        assert(bytes@ =~= seq![0u8]);
        PoolBuilder { bytes, offsets }
    }

    /// Puts `text` in the pool and tells where it stands.
    fn intern(&mut self, text: &str) -> (offset: usize)
        ensures
            final(self)@ == interned(old(self)@, text@),
            offset == final(self)@.offsets[text@],
    {
        match self.offsets.get(text) {
            Some(offset) => {
                return *offset;
            },
            None => {},
        }
        let ghost before = self@;
        let offset: usize = self.bytes.len();
        push_bytes(&mut self.bytes, text.as_bytes());
        self.bytes.push(0);
        self.offsets.insert(text.to_owned(), offset);
        assert(self.bytes@ =~= before.bytes + encode_utf8(text@).push(0));
        offset
    }
}

impl UtfTableBuilder {
    pub fn new(name: &str, columns: Vec<UtfColumn>, rows: Vec<Vec<UtfValue>>) -> (builder: Self)
        ensures
            builder@ == (TableModel {
                name: name@,
                columns: columns_view(columns@),
                rows: cell_rows_view(rows@),
            }),
    {
        UtfTableBuilder { name: name.to_owned(), columns, rows }
    }

    fn is_shaped(&self) -> (yes: bool)
        ensures
            yes == self@.shaped(),
    {
        let mut r: usize = 0;
        while r < self.rows.len()
            invariant
                r <= self.rows@.len(),
                forall|k: int| 0 <= k < r ==> #[trigger] self@.row_shaped(k),
            decreases self.rows@.len() - r,
        {
            let row: &Vec<UtfValue> = &self.rows[r];
            assert(self@.rows[r as int] == cells_view(row@));
            if row.len() != self.columns.len() {
                assert(!self@.row_shaped(r as int));
                return false;
            }
            let mut c: usize = 0;
            while c < row.len()
                invariant
                    c <= row@.len(),
                    r < self.rows@.len(),
                    row@ == self.rows@[r as int]@,
                    row@.len() == self.columns@.len(),
                    self@.rows[r as int] == cells_view(row@),
                    forall|k: int|
                        0 <= k < c ==> #[trigger] self@.rows[r as int][k].kind()
                            == self@.columns[k].kind,
                decreases row@.len() - c,
            {
                assert(self@.rows[r as int][c as int] == row@[c as int]@);
                if row[c].value_type() != self.columns[c].value_type {
                    assert(self@.rows[r as int][c as int].kind() != self@.columns[c as int].kind);
                    assert(!self@.row_shaped(r as int));
                    return false;
                }
                c = c + 1;
            }
            assert(self@.row_shaped(r as int));
            r = r + 1;
        }
        true
    }

    fn row_width(&self) -> (width: usize)
        requires
            self.columns@.len() <= u16::MAX,
        ensures
            width == self@.row_size(),
    {
        let mut width: usize = 0;
        let mut c: usize = 0;
        while c < self.columns.len()
            invariant
                c <= self.columns@.len() <= u16::MAX,
                width == self@.width(c as nat),
                width <= 8 * c,
            decreases self.columns@.len() - c,
        {
            width = width + self.columns[c].value_type.size();
            c = c + 1;
        }
        width
    }

    fn build_pool(&self) -> (pool: PoolBuilder)
        ensures
            pool@ == self@.pool(),
    {
        let mut pool = PoolBuilder::new();
        pool.intern(self.name.as_str());
        let mut c: usize = 0;
        while c < self.columns.len()
            invariant
                c <= self.columns@.len(),
                pool@ == self@.pool_names(c as nat),
            decreases self.columns@.len() - c,
        {
            pool.intern(self.columns[c].name.as_str());
            c = c + 1;
        }
        let mut r: usize = 0;
        while r < self.rows.len()
            invariant
                r <= self.rows@.len(),
                pool@ == self@.pool_rows(r as nat),
            decreases self.rows@.len() - r,
        {
            let row: &Vec<UtfValue> = &self.rows[r];
            let ghost before = pool@;
            let mut c: usize = 0;
            while c < row.len()
                invariant
                    c <= row@.len(),
                    pool@ == pool_cells(before, cells_view(row@), c as nat),
                decreases row@.len() - c,
            {
                match &row[c] {
                    UtfValue::String(text) => {
                        pool.intern(text.as_str());
                    },
                    _ => {},
                }
                c = c + 1;
            }
            r = r + 1;
        }
        pool
    }

    fn build_data(&self) -> (data: Vec<u8>)
        ensures
            data@ == self@.data(),
    {
        let mut data: Vec<u8> = Vec::new();
        let mut r: usize = 0;
        assert(data@ =~= self@.data_rows(0));
        while r < self.rows.len()
            invariant
                r <= self.rows@.len(),
                data@ == self@.data_rows(r as nat),
            decreases self.rows@.len() - r,
        {
            let row: &Vec<UtfValue> = &self.rows[r];
            let ghost before = data@;
            let mut c: usize = 0;
            assert(data@ =~= before + data_cells(cells_view(row@), 0));
            while c < row.len()
                invariant
                    c <= row@.len(),
                    data@ == before + data_cells(cells_view(row@), c as nat),
                decreases row@.len() - c,
            {
                match &row[c] {
                    UtfValue::Data(bytes) => {
                        push_bytes(&mut data, bytes.as_slice());
                    },
                    _ => {},
                }
                c = c + 1;
                assert(data@ =~= before + data_cells(cells_view(row@), c as nat));
            }
            r = r + 1;
        }
        data
    }

    /// The bytes of the table, or an overflow error where it cannot be stored.
    pub fn build(self) -> (r: Result<Vec<u8>, CpkWriterError>)
        ensures
            match r {
                Ok(bytes) => self@.fits() && bytes@ == self@.bytes(),
                Err(e) => !self@.fits() && e@ == WriterErrorView::ArithmeticOverflow,
            },
    {
        let ghost m = self@;
        if self.columns.len() > u16::MAX as usize || self.rows.len() as u64 > u32::MAX as u64 {
            return Err(CpkWriterError::ArithmeticOverflow);
        }
        let row_size: usize = self.row_width();
        if row_size > u16::MAX as usize || !self.is_shaped() {
            return Err(CpkWriterError::ArithmeticOverflow);
        }
        let pool = self.build_pool();
        let data = self.build_data();
        let rows_start: usize = HEADER_SIZE + 5 * self.columns.len();
        let sizes = match table_sizes(
            rows_start,
            row_size,
            self.rows.len(),
            pool.bytes.len(),
            data.len(),
        ) {
            Some(sizes) => sizes,
            None => {
                return Err(CpkWriterError::ArithmeticOverflow);
            },
        };
        let (strings_start, data_start, total) = sizes;
        if rows_start - 8 > u16::MAX as usize || (total - 8) as u64 > u32::MAX as u64 {
            return Err(CpkWriterError::ArithmeticOverflow);
        }
        assert(m.fits());
        let mut output: Vec<u8> = Vec::new();
        self.write_header(&mut output, rows_start, strings_start, data_start, total, row_size, &pool);
        self.write_columns(&mut output, &pool);
        self.write_rows(&mut output, &pool);
        push_bytes(&mut output, pool.bytes.as_slice());
        push_bytes(&mut output, data.as_slice());
        proof {
            reveal(TableModel::bytes);
        }
        assert(output@ =~= m.bytes());
        Ok(output)
    }

    fn write_header(
        &self,
        output: &mut Vec<u8>,
        rows_start: usize,
        strings_start: usize,
        data_start: usize,
        total: usize,
        row_size: usize,
        pool: &PoolBuilder,
    )
        requires
            old(output)@.len() == 0,
            self@.fits(),
            pool@ == self@.pool(),
            rows_start == self@.rows_start(),
            strings_start == self@.strings_start(),
            data_start == self@.data_start(),
            total == self@.total(),
            row_size == self@.row_size(),
            8 <= rows_start <= strings_start <= data_start <= total,
        ensures
            final(output)@ == self@.header_bytes(),
    {
        let ghost m = self@;
        proof {
            reveal(TableModel::header_bytes);
        }
        output.push(0x40);
        output.push(0x55);
        output.push(0x54);
        output.push(0x46);
        assert(output@ =~= utf_signature());
        push_be_u32(output, (total - 8) as u32);
        let ghost before = output@;
        output.push(0);
        output.push(1);
        assert(output@ =~= before + seq![0u8, 1u8]);
        push_be_u16(output, (rows_start - 8) as u16);
        push_be_u32(output, (strings_start - 8) as u32);
        push_be_u32(output, (data_start - 8) as u32);
        proof {
            lemma_name_in_pool(m);
        }
        let name_offset: usize = match pool.offsets.get(self.name.as_str()) {
            Some(offset) => *offset,
            None => 0,
        };
        push_be_u32(output, name_offset as u32);
        push_be_u16(output, self.columns.len() as u16);
        push_be_u16(output, row_size as u16);
        push_be_u32(output, self.rows.len() as u32);
    }

    fn write_columns(&self, output: &mut Vec<u8>, pool: &PoolBuilder)
        requires
            pool@ == self@.pool(),
        ensures
            final(output)@ == old(output)@ + self@.column_bytes(self@.columns.len()),
    {
        let ghost m = self@;
        let ghost before = output@;
        let mut c: usize = 0;
        assert(output@ =~= before + m.column_bytes(0));
        while c < self.columns.len()
            invariant
                c <= self.columns@.len(),
                m == self@,
                pool@ == m.pool(),
                output@ == before + m.column_bytes(c as nat),
            decreases self.columns@.len() - c,
        {
            proof {
                lemma_column_in_pool(m, c as int);
            }
            let ghost so_far = output@;
            let column: &UtfColumn = &self.columns[c];
            let name_offset: usize = match pool.offsets.get(column.name.as_str()) {
                Some(offset) => *offset,
                None => 0,
            };
            output.push(column.value_type.flag());
            push_be_u32(output, name_offset as u32);
            c = c + 1;
            assert(output@ =~= so_far + (seq![column.value_type.flag_byte()] + be32(
                name_offset as u32,
            )));
            assert(output@ =~= before + m.column_bytes(c as nat));
        }
    }

    fn write_row(&self, output: &mut Vec<u8>, r: usize, pool: &PoolBuilder, data_at: usize) -> (
        data_end: usize)
        requires
            r < self@.rows.len(),
            self@.rows[r as int].len() == self@.columns.len(),
            pool@ == self@.pool(),
            data_at == self@.data_rows(r as nat).len(),
            self@.data_rows((r + 1) as nat).len() <= usize::MAX,
        ensures
            final(output)@ == old(output)@ + self@.row_bytes(r as int, self@.columns.len()),
            data_end == self@.data_rows((r + 1) as nat).len(),
    {
        let ghost m = self@;
        let ghost before = output@;
        let row: &Vec<UtfValue> = &self.rows[r];
        let ghost cells = m.rows[r as int];
        assert(cells == cells_view(row@));
        let mut data_end: usize = data_at;
        let mut c: usize = 0;
        assert(output@ =~= before + m.row_bytes(r as int, 0));
        while c < row.len()
            invariant
                c <= row@.len(),
                r < m.rows.len(),
                pool@ == m.pool(),
                cells == m.rows[r as int],
                cells == cells_view(row@),
                data_at == m.data_rows(r as nat).len(),
                data_at + data_cells(cells, cells.len()).len() <= usize::MAX,
                data_end == data_at + data_cells(cells, c as nat).len(),
                output@ == before + m.row_bytes(r as int, c as nat),
            decreases row@.len() - c,
        {
            assert(cells[c as int] == row@[c as int]@);
            proof {
                lemma_data_cells_grow(cells, (c + 1) as nat, cells.len());
                if cells[c as int] is Text {
                    lemma_text_in_pool(m, r as int, c as int);
                }
            }
            write_cell(output, &row[c], pool, data_end);
            data_end = data_end + row[c].data_len();
            c = c + 1;
            assert(output@ =~= before + m.row_bytes(r as int, c as nat));
        }
        data_end
    }

    fn write_rows(&self, output: &mut Vec<u8>, pool: &PoolBuilder)
        requires
            self@.shaped(),
            self@.data().len() <= usize::MAX,
            pool@ == self@.pool(),
        ensures
            final(output)@ == old(output)@ + self@.rows_bytes(self@.rows.len()),
    {
        let ghost m = self@;
        let ghost before = output@;
        let mut data_at: usize = 0;
        let mut r: usize = 0;
        assert(output@ =~= before + m.rows_bytes(0));
        while r < self.rows.len()
            invariant
                r <= self.rows@.len(),
                m == self@,
                m.shaped(),
                m.data().len() <= usize::MAX,
                pool@ == m.pool(),
                data_at == m.data_rows(r as nat).len(),
                output@ == before + m.rows_bytes(r as nat),
            decreases self.rows@.len() - r,
        {
            assert(m.row_shaped(r as int));
            proof {
                lemma_data_rows_grow(m, (r + 1) as nat, m.rows.len());
            }
            data_at = self.write_row(output, r, pool, data_at);
            r = r + 1;
            assert(output@ =~= before + m.rows_bytes(r as nat));
        }
    }
}

fn write_cell(output: &mut Vec<u8>, value: &UtfValue, pool: &PoolBuilder, data_at: usize)
    requires
        value@ matches Cell::Text(text) ==> pool@.offsets.contains_key(text),
    ensures
        final(output)@ == old(output)@ + cell_bytes(value@, pool@.offsets, data_at as int),
{
    let ghost before = output@;
    match value {
        UtfValue::UInt16(v) => push_be_u16(output, *v),
        UtfValue::UInt32(v) => push_be_u32(output, *v),
        UtfValue::UInt64(v) => push_be_u64(output, *v),
        UtfValue::String(text) => {
            let offset: usize = match pool.offsets.get(text.as_str()) {
                Some(offset) => *offset,
                None => 0,
            };
            push_be_u32(output, offset as u32);
        },
        UtfValue::Data(bytes) => {
            push_be_u32(output, data_at as u32);
            push_be_u32(output, bytes.len() as u32);
            assert(output@ =~= before + (be32(data_at as u32) + be32(bytes@.len() as u32)));
        },
    }
}

/// The data of more rows holds the data of fewer.
pub proof fn lemma_data_rows_grow(m: TableModel, few: nat, many: nat)
    requires
        few <= many,
    ensures
        m.data_rows(few).len() <= m.data_rows(many).len(),
        m.data_rows(few) == m.data_rows(many).subrange(0, m.data_rows(few).len() as int),
    decreases many,
{
    if few < many {
        lemma_data_rows_grow(m, few, (many - 1) as nat);
        assert(m.data_rows(few) =~= m.data_rows(many).subrange(0, m.data_rows(few).len() as int));
    } else {
        assert(m.data_rows(few) =~= m.data_rows(many).subrange(0, m.data_rows(few).len() as int));
    }
}

/// The data of more values holds the data of fewer.
pub proof fn lemma_data_cells_grow(row: Seq<Cell>, few: nat, many: nat)
    requires
        few <= many,
    ensures
        data_cells(row, few).len() <= data_cells(row, many).len(),
        data_cells(row, few) == data_cells(row, many).subrange(
            0,
            data_cells(row, few).len() as int,
        ),
    decreases many,
{
    let n = data_cells(row, few).len() as int;
    if few < many {
        lemma_data_cells_grow(row, few, (many - 1) as nat);
        assert(data_cells(row, few) =~= data_cells(row, many).subrange(0, n));
    } else {
        assert(data_cells(row, few) =~= data_cells(row, many).subrange(0, n));
    }
}

/// The offsets of the string pool and the data pool, and the size of the table.
fn table_sizes(
    rows_start: usize,
    row_size: usize,
    row_count: usize,
    strings: usize,
    data: usize,
) -> (sizes: Option<(usize, usize, usize)>)
    ensures
        match sizes {
            Some((strings_start, data_start, total)) => {
                &&& strings_start == rows_start + row_size * row_count
                &&& data_start == strings_start + strings
                &&& total == data_start + data
            },
            None => rows_start + row_size * row_count + strings + data > usize::MAX,
        },
{
    assert(row_size * row_count >= 0) by (nonlinear_arith);
    let rows_bytes: usize = match row_size.checked_mul(row_count) {
        Some(v) => v,
        None => {
            return None;
        },
    };
    let strings_start: usize = match rows_start.checked_add(rows_bytes) {
        Some(v) => v,
        None => {
            return None;
        },
    };
    let data_start: usize = match strings_start.checked_add(strings) {
        Some(v) => v,
        None => {
            return None;
        },
    };
    match data_start.checked_add(data) {
        Some(total) => Some((strings_start, data_start, total)),
        None => None,
    }
}

} // verus!
