//! The header and index tables of an archive.

use vstd::prelude::*;

use crate::cpk::error::{CpkWriterError, WriterErrorView};
use crate::cpk::header::{CpkChunkKind, CPK_CHUNK_HEADER_SIZE};
use crate::cpk::input::{inputs_view, CpkInputFile, CpkWriterProfile, InputView, ProfileView};
use crate::cpk::utf::{
    cell_rows_view, cells_view, columns_view, Cell, ColumnModel, TableModel, UtfColumn,
    UtfTableBuilder, UtfType, UtfValue,
};
use crate::utils::bytes::{group_stored_widths, le64, push_bytes, push_le_u64};
use crate::utils::sort::as_ints;

verus! {

broadcast use group_stored_widths;

/// The offsets and sizes that an archive header tells.
pub struct HeaderFields {
    pub archive_size: u64,
    pub content_offset: u64,
    pub content_size: u64,
    pub toc_offset: u64,
    pub toc_size: u64,
    pub itoc_offset: u64,
    pub itoc_size: u64,
    pub alignment: u16,
    pub file_count: u32,
}

/// A column with this name and type.
pub open spec fn column(name: Seq<char>, kind: UtfType) -> ColumnModel {
    ColumnModel { name, kind }
}

/// The columns of the archive header.
pub open spec fn header_columns() -> Seq<ColumnModel> {
    seq![
        column("UpdateDateTime"@, UtfType::UInt64),
        column("FileSize"@, UtfType::UInt64),
        column("ContentOffset"@, UtfType::UInt64),
        column("ContentSize"@, UtfType::UInt64),
        column("TocOffset"@, UtfType::UInt64),
        column("TocSize"@, UtfType::UInt64),
        column("EtocOffset"@, UtfType::UInt64),
        column("EtocSize"@, UtfType::UInt64),
        column("ItocOffset"@, UtfType::UInt64),
        column("ItocSize"@, UtfType::UInt64),
        column("GtocOffset"@, UtfType::UInt64),
        column("GtocSize"@, UtfType::UInt64),
        column("Files"@, UtfType::UInt32),
        column("Version"@, UtfType::UInt16),
        column("Revision"@, UtfType::UInt16),
        column("Align"@, UtfType::UInt16),
        column("Sorted"@, UtfType::UInt16),
        column("EID"@, UtfType::UInt16),
        column("EnableFileName"@, UtfType::UInt16),
        column("CpkMode"@, UtfType::UInt32),
        column("Tvers"@, UtfType::String),
        column("Comment"@, UtfType::String),
        column("Codec"@, UtfType::UInt32),
        column("DpkItoc"@, UtfType::UInt32),
        column("EnableTocCrc"@, UtfType::UInt16),
        column("EnableFileCrc"@, UtfType::UInt16),
    ]
}

/// One where `yes` holds, else zero.
pub open spec fn flag16(yes: bool) -> u16 {
    if yes {
        1
    } else {
        0
    }
}

/// The row of the archive header. The TOC counts as unsorted, and the archive
/// has no ETOC, no GTOC and no CRCs.
pub open spec fn header_row(f: HeaderFields, p: ProfileView) -> Seq<Cell> {
    seq![
        Cell::UInt64(p.update_date_time),
        Cell::UInt64(f.archive_size),
        Cell::UInt64(f.content_offset),
        Cell::UInt64(f.content_size),
        Cell::UInt64(f.toc_offset),
        Cell::UInt64(f.toc_size),
        Cell::UInt64(0),
        Cell::UInt64(0),
        Cell::UInt64(f.itoc_offset),
        Cell::UInt64(f.itoc_size),
        Cell::UInt64(0),
        Cell::UInt64(0),
        Cell::UInt32(f.file_count),
        Cell::UInt16(p.version),
        Cell::UInt16(p.revision),
        Cell::UInt16(f.alignment),
        Cell::UInt16(0),
        Cell::UInt16(flag16(p.index_mode.by_id() && p.direct_itoc)),
        Cell::UInt16(flag16(p.index_mode.by_name())),
        Cell::UInt32(p.index_mode.number()),
        Cell::Text(p.tvers),
        Cell::Text(p.comment),
        Cell::UInt32(0),
        Cell::UInt32(0),
        Cell::UInt16(0),
        Cell::UInt16(0),
    ]
}

/// The table of the archive header.
pub open spec fn header_model(f: HeaderFields, p: ProfileView) -> TableModel {
    TableModel { name: "CpkHeader"@, columns: header_columns(), rows: seq![header_row(f, p)] }
}

/// The columns of the TOC, in the order in which the engine reads them.
pub open spec fn toc_columns() -> Seq<ColumnModel> {
    seq![
        column("DirName"@, UtfType::String),
        column("FileName"@, UtfType::String),
        column("FileSize"@, UtfType::UInt32),
        column("ExtractSize"@, UtfType::UInt32),
        column("FileOffset"@, UtfType::UInt64),
        column("ID"@, UtfType::UInt32),
        column("UserString"@, UtfType::String),
    ]
}

/// The row of a file in the TOC.
pub open spec fn toc_row(file: InputView, offset: u64) -> Seq<Cell> {
    seq![
        Cell::Text(file.directory),
        Cell::Text(file.file_name),
        Cell::UInt32(file.size),
        Cell::UInt32(file.extract_size),
        Cell::UInt64(offset),
        Cell::UInt32(file.id),
        Cell::Text(file.user_string),
    ]
}

/// The TOC, with one row per file and its offset.
pub open spec fn toc_model(files: Seq<InputView>, offsets: Seq<u64>) -> TableModel {
    TableModel {
        name: "CpkTocInfo"@,
        columns: toc_columns(),
        rows: Seq::new(files.len(), |i: int| toc_row(files[i], offsets[i])),
    }
}

/// The sizes of the file fit in 16 bits.
pub open spec fn is_low(file: InputView) -> bool {
    file.size <= u16::MAX && file.extract_size <= u16::MAX
}

/// The columns of a table of IDs and sizes.
pub open spec fn id_columns(low: bool) -> Seq<ColumnModel> {
    let kind = if low {
        UtfType::UInt16
    } else {
        UtfType::UInt32
    };
    seq![
        column("ID"@, UtfType::UInt16),
        column("FileSize"@, kind),
        column("ExtractSize"@, kind),
    ]
}

/// The row of a file in a table of IDs and sizes.
pub open spec fn id_row(file: InputView, low: bool) -> Seq<Cell> {
    if low {
        seq![
            Cell::UInt16(file.id as u16),
            Cell::UInt16(file.size as u16),
            Cell::UInt16(file.extract_size as u16),
        ]
    } else {
        seq![
            Cell::UInt16(file.id as u16),
            Cell::UInt32(file.size),
            Cell::UInt32(file.extract_size),
        ]
    }
}

/// A table of the IDs and sizes of the files with these indices.
pub open spec fn id_model(
    files: Seq<InputView>,
    indices: Seq<int>,
    low: bool,
    name: Seq<char>,
) -> TableModel {
    TableModel {
        name,
        columns: id_columns(low),
        rows: Seq::new(indices.len(), |k: int| id_row(files[indices[k]], low)),
    }
}

/// The indices among `order` whose files have 16-bit sizes, or those whose
/// files have not.
pub open spec fn width_group(files: Seq<InputView>, order: Seq<int>, low: bool) -> Seq<int> {
    order.filter(|i: int| is_low(files[i]) == low)
}

/// The nested table of files with 16-bit sizes.
pub open spec fn low_model(files: Seq<InputView>, order: Seq<int>) -> TableModel {
    id_model(files, width_group(files, order, true), true, "CpkItocL"@)
}

/// The nested table of the other files.
pub open spec fn high_model(files: Seq<InputView>, order: Seq<int>) -> TableModel {
    id_model(files, width_group(files, order, false), false, "CpkItocH"@)
}

/// The standard ITOC: one row with both nested tables, empty ones included.
pub open spec fn nested_model(files: Seq<InputView>, order: Seq<int>) -> TableModel {
    TableModel {
        name: "CpkItocInfo"@,
        columns: seq![column("DataL"@, UtfType::Data), column("DataH"@, UtfType::Data)],
        rows: seq![
            seq![
                Cell::Blob(low_model(files, order).bytes()),
                Cell::Blob(high_model(files, order).bytes()),
            ],
        ],
    }
}

/// The ITOC of the files in `order`.
pub open spec fn itoc_model(files: Seq<InputView>, order: Seq<int>, direct: bool) -> TableModel {
    if direct {
        id_model(files, order, false, "CpkExtendId"@)
    } else {
        nested_model(files, order)
    }
}

/// The ITOC can be stored.
pub open spec fn itoc_fits(files: Seq<InputView>, order: Seq<int>, direct: bool) -> bool {
    &&& itoc_model(files, order, direct).fits()
    &&& !direct ==> low_model(files, order).fits() && high_model(files, order).fits()
}

/// Why the files with these indices, from position `from` on, cannot have rows in
/// a table of IDs and sizes.
pub open spec fn rows_problem(
    files: Seq<InputView>,
    indices: Seq<int>,
    low: bool,
    from: int,
) -> Option<WriterErrorView>
    decreases indices.len() - from,
{
    if from >= indices.len() {
        None
    } else if files[indices[from]].id > u16::MAX {
        Some(WriterErrorView::ItocIdTooLarge(files[indices[from]].id))
    } else if low && !is_low(files[indices[from]]) {
        Some(WriterErrorView::ArithmeticOverflow)
    } else {
        rows_problem(files, indices, low, from + 1)
    }
}

/// The bytes of a table, or the error where it cannot be stored.
pub open spec fn stored(m: TableModel) -> Result<Seq<u8>, WriterErrorView> {
    if m.fits() {
        Ok(m.bytes())
    } else {
        Err(WriterErrorView::ArithmeticOverflow)
    }
}

/// The bytes of a table of the IDs and sizes of the files with these indices.
pub open spec fn id_table(
    files: Seq<InputView>,
    indices: Seq<int>,
    low: bool,
    name: Seq<char>,
) -> Result<Seq<u8>, WriterErrorView> {
    match rows_problem(files, indices, low, 0) {
        Some(e) => Err(e),
        None => stored(id_model(files, indices, low, name)),
    }
}

/// The bytes of the ITOC of the files in `order`.
pub open spec fn itoc_table(files: Seq<InputView>, order: Seq<int>, direct: bool) -> Result<
    Seq<u8>,
    WriterErrorView,
> {
    if direct {
        id_table(files, order, false, "CpkExtendId"@)
    } else {
        let low = id_table(files, width_group(files, order, true), true, "CpkItocL"@);
        let high = id_table(files, width_group(files, order, false), false, "CpkItocH"@);
        if low is Err {
            low
        } else if high is Err {
            high
        } else {
            stored(nested_model(files, order))
        }
    }
}

/// Files with 16-bit IDs, and 16-bit sizes where the table asks for them, have
/// rows.
proof fn lemma_no_rows_problem(files: Seq<InputView>, indices: Seq<int>, low: bool, from: int)
    requires
        0 <= from,
        forall|k: int| 0 <= k < indices.len() ==> files[#[trigger] indices[k]].id <= u16::MAX,
        low ==> forall|k: int| 0 <= k < indices.len() ==> is_low(files[#[trigger] indices[k]]),
    ensures
        rows_problem(files, indices, low, from) is None,
    decreases indices.len() - from,
{
    if from < indices.len() {
        lemma_no_rows_problem(files, indices, low, from + 1);
    }
}

/// A group holds only indices of the order, with the width it is for.
proof fn lemma_group_members(files: Seq<InputView>, order: Seq<int>, low: bool, k: int)
    requires
        0 <= k < width_group(files, order, low).len(),
    ensures
        order.contains(width_group(files, order, low)[k]),
        is_low(files[width_group(files, order, low)[k]]) == low,
    decreases order.len(),
{
    reveal(Seq::filter);
    let before = width_group(files, order.drop_last(), low);
    if k < before.len() {
        lemma_group_members(files, order.drop_last(), low, k);
        let i = choose|i: int| 0 <= i < order.len() - 1 && order.drop_last()[i] == before[k];
        assert(order[i] == before[k]);
    } else {
        assert(order[order.len() - 1] == order.last());
    }
}

/// Where all IDs have 16 bits, the ITOC is stored just where it fits.
pub proof fn lemma_itoc_table(files: Seq<InputView>, order: Seq<int>, direct: bool)
    requires
        forall|k: int| 0 <= k < order.len() ==> files[#[trigger] order[k]].id <= u16::MAX,
    ensures
        itoc_table(files, order, direct) == if itoc_fits(files, order, direct) {
            Ok::<Seq<u8>, WriterErrorView>(itoc_model(files, order, direct).bytes())
        } else {
            Err(WriterErrorView::ArithmeticOverflow)
        },
{
    if direct {
        lemma_no_rows_problem(files, order, false, 0);
    } else {
        let low = width_group(files, order, true);
        let high = width_group(files, order, false);
        assert forall|k: int| 0 <= k < low.len() implies files[#[trigger] low[k]].id <= u16::MAX
            && is_low(files[low[k]]) by {
            lemma_group_members(files, order, true, k);
            let i = choose|i: int| 0 <= i < order.len() && order[i] == low[k];
            assert(files[order[i]].id <= u16::MAX);
        }
        assert forall|k: int| 0 <= k < high.len() implies files[#[trigger] high[k]].id <= u16::MAX by {
            lemma_group_members(files, order, false, k);
            let i = choose|i: int| 0 <= i < order.len() && order[i] == high[k];
            assert(files[order[i]].id <= u16::MAX);
        }
        lemma_no_rows_problem(files, low, true, 0);
        lemma_no_rows_problem(files, high, false, 0);
    }
}

/// A plain chunk around a table.
pub open spec fn chunk(kind: CpkChunkKind, table: Seq<u8>) -> Seq<u8> {
    kind.magic_bytes() + seq![0xffu8, 0xffu8, 0xffu8, 0xffu8] + le64(table.len() as u64) + table
}

pub proof fn lemma_chunk_len(kind: CpkChunkKind, table: Seq<u8>)
    ensures
        chunk(kind, table).len() == CPK_CHUNK_HEADER_SIZE + table.len(),
{
    assert(kind.magic_bytes().len() == 4);
}

/// The table of the archive header.
pub fn build_header_table(
    archive_size: u64,
    content_offset: u64,
    content_size: u64,
    toc_offset: u64,
    toc_size: u64,
    itoc_offset: u64,
    itoc_size: u64,
    alignment: u16,
    file_count: u32,
    profile: &CpkWriterProfile,
) -> (r: Result<Vec<u8>, CpkWriterError>)
    ensures
        ({
            let m = header_model(
                HeaderFields {
                    archive_size,
                    content_offset,
                    content_size,
                    toc_offset,
                    toc_size,
                    itoc_offset,
                    itoc_size,
                    alignment,
                    file_count,
                },
                profile@,
            );
            match r {
                Ok(bytes) => m.fits() && bytes@ == m.bytes(),
                Err(e) => !m.fits() && e@ == WriterErrorView::ArithmeticOverflow,
            }
        }),
{
    let columns: Vec<UtfColumn> = vec![
        UtfColumn::new("UpdateDateTime", UtfType::UInt64),
        UtfColumn::new("FileSize", UtfType::UInt64),
        UtfColumn::new("ContentOffset", UtfType::UInt64),
        UtfColumn::new("ContentSize", UtfType::UInt64),
        UtfColumn::new("TocOffset", UtfType::UInt64),
        UtfColumn::new("TocSize", UtfType::UInt64),
        UtfColumn::new("EtocOffset", UtfType::UInt64),
        UtfColumn::new("EtocSize", UtfType::UInt64),
        UtfColumn::new("ItocOffset", UtfType::UInt64),
        UtfColumn::new("ItocSize", UtfType::UInt64),
        UtfColumn::new("GtocOffset", UtfType::UInt64),
        UtfColumn::new("GtocSize", UtfType::UInt64),
        UtfColumn::new("Files", UtfType::UInt32),
        UtfColumn::new("Version", UtfType::UInt16),
        UtfColumn::new("Revision", UtfType::UInt16),
        UtfColumn::new("Align", UtfType::UInt16),
        UtfColumn::new("Sorted", UtfType::UInt16),
        UtfColumn::new("EID", UtfType::UInt16),
        UtfColumn::new("EnableFileName", UtfType::UInt16),
        UtfColumn::new("CpkMode", UtfType::UInt32),
        UtfColumn::new("Tvers", UtfType::String),
        UtfColumn::new("Comment", UtfType::String),
        UtfColumn::new("Codec", UtfType::UInt32),
        UtfColumn::new("DpkItoc", UtfType::UInt32),
        UtfColumn::new("EnableTocCrc", UtfType::UInt16),
        UtfColumn::new("EnableFileCrc", UtfType::UInt16),
    ];
    let eid: u16 = if profile.index_mode.has_itoc() && profile.direct_itoc {
        1
    } else {
        0
    };
    let named: u16 = if profile.index_mode.has_toc() {
        1
    } else {
        0
    };
    let row: Vec<UtfValue> = vec![
        UtfValue::UInt64(profile.update_date_time),
        UtfValue::UInt64(archive_size),
        UtfValue::UInt64(content_offset),
        UtfValue::UInt64(content_size),
        UtfValue::UInt64(toc_offset),
        UtfValue::UInt64(toc_size),
        UtfValue::UInt64(0),
        UtfValue::UInt64(0),
        UtfValue::UInt64(itoc_offset),
        UtfValue::UInt64(itoc_size),
        UtfValue::UInt64(0),
        UtfValue::UInt64(0),
        UtfValue::UInt32(file_count),
        UtfValue::UInt16(profile.version),
        UtfValue::UInt16(profile.revision),
        UtfValue::UInt16(alignment),
        UtfValue::UInt16(0),
        UtfValue::UInt16(eid),
        UtfValue::UInt16(named),
        UtfValue::UInt32(profile.index_mode.cpk_mode()),
        UtfValue::String(profile.tvers.clone()),
        UtfValue::String(profile.comment.clone()),
        UtfValue::UInt32(0),
        UtfValue::UInt32(0),
        UtfValue::UInt16(0),
        UtfValue::UInt16(0),
    ];
    let ghost fields = HeaderFields {
        archive_size,
        content_offset,
        content_size,
        toc_offset,
        toc_size,
        itoc_offset,
        itoc_size,
        alignment,
        file_count,
    };
    assert(columns_view(columns@) =~= header_columns());
    assert(cells_view(row@) =~= header_row(fields, profile@));
    let rows: Vec<Vec<UtfValue>> = vec![row];
    assert(cell_rows_view(rows@) =~= seq![header_row(fields, profile@)]);
    UtfTableBuilder::new("CpkHeader", columns, rows).build()
}

/// The TOC of `files`.
pub fn build_toc_table(files: &[CpkInputFile], offsets: &Vec<u64>) -> (r: Result<
    Vec<u8>,
    CpkWriterError,
>)
    requires
        files@.len() == offsets@.len(),
    ensures
        ({
            let m = toc_model(inputs_view(files@), offsets@);
            match r {
                Ok(bytes) => m.fits() && bytes@ == m.bytes(),
                Err(e) => !m.fits() && e@ == WriterErrorView::ArithmeticOverflow,
            }
        }),
{
    let columns: Vec<UtfColumn> = vec![
        UtfColumn::new("DirName", UtfType::String),
        UtfColumn::new("FileName", UtfType::String),
        UtfColumn::new("FileSize", UtfType::UInt32),
        UtfColumn::new("ExtractSize", UtfType::UInt32),
        UtfColumn::new("FileOffset", UtfType::UInt64),
        UtfColumn::new("ID", UtfType::UInt32),
        UtfColumn::new("UserString", UtfType::String),
    ];
    assert(columns_view(columns@) =~= toc_columns());
    let mut rows: Vec<Vec<UtfValue>> = Vec::new();
    let mut i: usize = 0;
    while i < files.len()
        invariant
            i <= files@.len(),
            files@.len() == offsets@.len(),
            rows@.len() == i,
            forall|k: int|
                0 <= k < i ==> cells_view(#[trigger] rows@[k]@) == toc_row(files@[k]@, offsets@[k]),
        decreases files@.len() - i,
    {
        let file: &CpkInputFile = &files[i];
        let row: Vec<UtfValue> = vec![
            UtfValue::String(file.directory.clone()),
            UtfValue::String(file.file_name.clone()),
            UtfValue::UInt32(file.size),
            UtfValue::UInt32(file.extract_size),
            UtfValue::UInt64(offsets[i]),
            UtfValue::UInt32(file.id),
            UtfValue::String(file.user_string.clone()),
        ];
        assert(cells_view(row@) =~= toc_row(file@, offsets@[i as int]));
        rows.push(row);
        i = i + 1;
    }
    assert(cell_rows_view(rows@) =~= toc_model(inputs_view(files@), offsets@).rows);
    UtfTableBuilder::new("CpkTocInfo", columns, rows).build()
}

/// A table of the IDs and sizes of the files with these indices.
pub fn build_itoc_rows(
    files: &[CpkInputFile],
    indices: &Vec<usize>,
    low_width: bool,
    table_name: &str,
) -> (r: Result<Vec<u8>, CpkWriterError>)
    requires
        forall|k: int| 0 <= k < indices@.len() ==> #[trigger] indices@[k] < files@.len(),
    ensures
        match id_table(inputs_view(files@), as_ints(indices@), low_width, table_name@) {
            Ok(table) => r matches Ok(bytes) && bytes@ == table,
            Err(e) => r matches Err(f) && f@ == e,
        },
{
    let ghost views = inputs_view(files@);
    let ghost at = as_ints(indices@);
    let size_type: UtfType = if low_width {
        UtfType::UInt16
    } else {
        UtfType::UInt32
    };
    let columns: Vec<UtfColumn> = vec![
        UtfColumn::new("ID", UtfType::UInt16),
        UtfColumn::new("FileSize", size_type),
        UtfColumn::new("ExtractSize", size_type),
    ];
    assert(columns_view(columns@) =~= id_columns(low_width));
    let mut rows: Vec<Vec<UtfValue>> = Vec::new();
    let mut k: usize = 0;
    while k < indices.len()
        invariant
            k <= indices@.len(),
            views == inputs_view(files@),
            at == as_ints(indices@),
            forall|j: int| 0 <= j < indices@.len() ==> #[trigger] indices@[j] < files@.len(),
            rows_problem(views, at, low_width, 0) == rows_problem(views, at, low_width, k as int),
            rows@.len() == k,
            forall|j: int|
                0 <= j < k ==> cells_view(#[trigger] rows@[j]@) == id_row(
                    files@[indices@[j] as int]@,
                    low_width,
                ),
        decreases indices@.len() - k,
    {
        let file: &CpkInputFile = &files[indices[k]];
        assert(views[at[k as int]] == file@);
        if file.id > u16::MAX as u32 {
            return Err(CpkWriterError::ItocIdTooLarge(file.id));
        }
        let row: Vec<UtfValue> = if low_width {
            if file.size > u16::MAX as u32 || file.extract_size > u16::MAX as u32 {
                return Err(CpkWriterError::ArithmeticOverflow);
            }
            vec![
                UtfValue::UInt16(file.id as u16),
                UtfValue::UInt16(file.size as u16),
                UtfValue::UInt16(file.extract_size as u16),
            ]
        } else {
            vec![
                UtfValue::UInt16(file.id as u16),
                UtfValue::UInt32(file.size),
                UtfValue::UInt32(file.extract_size),
            ]
        };
        assert(cells_view(row@) =~= id_row(file@, low_width));
        rows.push(row);
        k = k + 1;
    }
    assert(cell_rows_view(rows@) =~= id_model(
        inputs_view(files@),
        as_ints(indices@),
        low_width,
        table_name@,
    ).rows);
    UtfTableBuilder::new(table_name, columns, rows).build()
}

/// The indices of files with 16-bit sizes, and the others, in order.
fn split_by_width(files: &[CpkInputFile], order: &Vec<usize>) -> (groups: (Vec<usize>, Vec<usize>))
    requires
        forall|k: int| 0 <= k < order@.len() ==> #[trigger] order@[k] < files@.len(),
    ensures
        as_ints(groups.0@) == width_group(inputs_view(files@), as_ints(order@), true),
        as_ints(groups.1@) == width_group(inputs_view(files@), as_ints(order@), false),
        forall|k: int|
            0 <= k < groups.0@.len() ==> order@.contains(#[trigger] groups.0@[k]) && is_low(
                files@[groups.0@[k] as int]@,
            ),
        forall|k: int| 0 <= k < groups.1@.len() ==> order@.contains(#[trigger] groups.1@[k]),
{
    let ghost views = inputs_view(files@);
    let ghost all = as_ints(order@);
    let mut low: Vec<usize> = Vec::new();
    let mut high: Vec<usize> = Vec::new();
    let mut k: usize = 0;
    proof {
        reveal(Seq::filter);
        assert(as_ints(low@) =~= width_group(views, all.take(0), true));
        assert(as_ints(high@) =~= width_group(views, all.take(0), false));
    }
    while k < order.len()
        invariant
            k <= order@.len(),
            views == inputs_view(files@),
            all == as_ints(order@),
            forall|j: int| 0 <= j < order@.len() ==> #[trigger] order@[j] < files@.len(),
            as_ints(low@) == width_group(views, all.take(k as int), true),
            as_ints(high@) == width_group(views, all.take(k as int), false),
            forall|j: int|
                0 <= j < low@.len() ==> order@.contains(#[trigger] low@[j]) && is_low(
                    files@[low@[j] as int]@,
                ),
            forall|j: int| 0 <= j < high@.len() ==> order@.contains(#[trigger] high@[j]),
        decreases order@.len() - k,
    {
        let index: usize = order[k];
        let ghost (low_before, high_before) = (low@, high@);
        proof {
            reveal(Seq::filter);
            assert(all.take(k + 1).drop_last() =~= all.take(k as int));
            assert(all.take(k + 1).last() == index);
            assert(order@.contains(index));
        }
        if files[index].size <= u16::MAX as u32 && files[index].extract_size <= u16::MAX as u32 {
            low.push(index);
        } else {
            high.push(index);
        }
        proof {
            if is_low(views[index as int]) {
                assert(as_ints(low@) =~= as_ints(low_before).push(index as int));
            } else {
                assert(as_ints(high@) =~= as_ints(high_before).push(index as int));
            }
        }
        k = k + 1;
    }
    assert(all.take(order@.len() as int) =~= all);
    (low, high)
}

/// The ITOC of the files in `order`.
pub fn build_itoc_table(files: &[CpkInputFile], order: &Vec<usize>, direct: bool) -> (r: Result<
    Vec<u8>,
    CpkWriterError,
>)
    requires
        forall|k: int| 0 <= k < order@.len() ==> #[trigger] order@[k] < files@.len(),
    ensures
        match itoc_table(inputs_view(files@), as_ints(order@), direct) {
            Ok(table) => r matches Ok(bytes) && bytes@ == table,
            Err(e) => r matches Err(f) && f@ == e,
        },
{
    if direct {
        return build_itoc_rows(files, order, false, "CpkExtendId");
    }
    let (low, high) = split_by_width(files, order);
    proof {
        assert forall|k: int| 0 <= k < low@.len() implies #[trigger] low@[k] < files@.len() by {
            assert(order@.contains(low@[k]));
        }
        assert forall|k: int| 0 <= k < high@.len() implies #[trigger] high@[k] < files@.len() by {
            assert(order@.contains(high@[k]));
        }
    }
    let low_table = match build_itoc_rows(files, &low, true, "CpkItocL") {
        Ok(table) => table,
        Err(e) => {
            return Err(e);
        },
    };
    let high_table = match build_itoc_rows(files, &high, false, "CpkItocH") {
        Ok(table) => table,
        Err(e) => {
            return Err(e);
        },
    };
    let columns: Vec<UtfColumn> = vec![
        UtfColumn::new("DataL", UtfType::Data),
        UtfColumn::new("DataH", UtfType::Data),
    ];
    let row: Vec<UtfValue> = vec![UtfValue::Data(low_table), UtfValue::Data(high_table)];
    let ghost m = nested_model(inputs_view(files@), as_ints(order@));
    assert(columns_view(columns@) =~= m.columns);
    assert(cells_view(row@) =~= m.rows[0]);
    let rows: Vec<Vec<UtfValue>> = vec![row];
    assert(cell_rows_view(rows@) =~= m.rows);
    UtfTableBuilder::new("CpkItocInfo", columns, rows).build()
}

/// A plain chunk around a table.
pub fn build_chunk(kind: CpkChunkKind, table: &Vec<u8>) -> (output: Vec<u8>)
    ensures
        output@ == chunk(kind, table@),
{
    let mut output: Vec<u8> = Vec::new();
    let magic: [u8; 4] = kind.magic();
    output.push(magic[0]);
    output.push(magic[1]);
    output.push(magic[2]);
    output.push(magic[3]);
    assert(output@ =~= kind.magic_bytes());
    output.push(0xff);
    output.push(0xff);
    output.push(0xff);
    output.push(0xff);
    assert(output@ =~= kind.magic_bytes() + seq![0xffu8, 0xffu8, 0xffu8, 0xffu8]);
    push_le_u64(&mut output, table.len() as u64);
    push_bytes(&mut output, table.as_slice());
    output
}

} // verus!
