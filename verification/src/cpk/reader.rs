//! Reads archives.

use std::marker::PhantomData;

use vstd::prelude::*;
use vstd::string::*;

use crate::cpk::compress::{DummyDecompressor, FileDecompressor};
use crate::cpk::encrypt::data::{DummyDecryptor, FileDecryptor};
use crate::cpk::file::{effective_extract_size, files_view, CpkFile, CpkFileView};
use crate::cpk::header::{
    chunk_at, number_of, row_value_to_u64, table_of, ChunkError, CpkChunkKind, HighTable,
    TableContainer, TableView,
};
use crate::schema::error::TableError;
use crate::schema::rows::RowValue;
use crate::schema::strings::{StringPool, StringPoolFast};
use crate::utils::align::{lemma_padded, pad_up, padded_size};
use crate::utils::bytes::copy_range;
use crate::utils::sort::{
    as_ints, comes_before, is_order, lemma_lex_single, lemma_order_of, order_of, ranks,
    stable_order,
};
use crate::utils::text::{decimal, hexadecimal, numeral, pad_zeros, zero_padded};

verus! {

/// The base that file offsets in a TOC count from.
pub const ENGINE_TOC_FILE_BASE: u64 = 0x800;

/// Why an archive cannot be read.
#[derive(Debug, Clone, Copy)]
pub enum CpkReaderError {
    InvalidHeaderChunk,
    MissingContentOffset,
    MissingFileName,
    MissingFileSize,
    MissingFileOffset,
    MissingTocAndItoc,
    InvalidTocColumn(&'static str),
    InvalidItoc,
    ItocContentOffsetTooLarge(u64),
    FileTooLarge(u64),
    GetFilesNotCalled,
    /// The archive ends inside a file.
    UnexpectedEof,
    /// A chunk cannot be read.
    Chunk(ChunkError),
    /// A table cannot be read.
    Table(TableError),
}

impl CpkReaderError {
    /// The message of the error.
    pub open spec fn message_text(self) -> Seq<char> {
        match self {
            CpkReaderError::InvalidHeaderChunk => "archive does not start with a CPK chunk"@,
            CpkReaderError::MissingContentOffset => "CPK header has no ContentOffset"@,
            CpkReaderError::MissingFileName => "TOC row has no FileName"@,
            CpkReaderError::MissingFileSize => "file row has no valid FileSize"@,
            CpkReaderError::MissingFileOffset => "TOC row has no valid FileOffset"@,
            CpkReaderError::MissingTocAndItoc => "CPK contains neither a TOC nor an ITOC"@,
            CpkReaderError::InvalidTocColumn(name) => "TOC is missing required column "@ + name@,
            CpkReaderError::InvalidItoc => "invalid ITOC DataL/DataH structure"@,
            CpkReaderError::ItocContentOffsetTooLarge(offset) =>
                "ITOC ContentOffset exceeds the target engine's 32-bit base: 0x"@ + numeral(
                offset as nat,
                16,
            ),
            CpkReaderError::FileTooLarge(size) => "file size does not fit the CPK format: "@
                + numeral(size as nat, 10),
            CpkReaderError::GetFilesNotCalled => "get_files must be called before extract_file"@,
            CpkReaderError::UnexpectedEof => "failed to fill whole buffer"@,
            CpkReaderError::Chunk(e) => e.message_text(),
            CpkReaderError::Table(e) => e.message_text(),
        }
    }

    /// The message of the error.
    pub fn message(&self) -> (text: String)
        ensures
            text@ == self.message_text(),
    {
        match self {
            CpkReaderError::InvalidHeaderChunk => {
                "archive does not start with a CPK chunk".to_owned()
            },
            CpkReaderError::MissingContentOffset => "CPK header has no ContentOffset".to_owned(),
            CpkReaderError::MissingFileName => "TOC row has no FileName".to_owned(),
            CpkReaderError::MissingFileSize => "file row has no valid FileSize".to_owned(),
            CpkReaderError::MissingFileOffset => "TOC row has no valid FileOffset".to_owned(),
            CpkReaderError::MissingTocAndItoc => {
                "CPK contains neither a TOC nor an ITOC".to_owned()
            },
            CpkReaderError::InvalidTocColumn(name) => {
                let mut text = "TOC is missing required column ".to_owned();
                text.append(*name);
                text
            },
            CpkReaderError::InvalidItoc => "invalid ITOC DataL/DataH structure".to_owned(),
            CpkReaderError::ItocContentOffsetTooLarge(offset) => {
                let mut text =
                    "ITOC ContentOffset exceeds the target engine's 32-bit base: 0x".to_owned();
                text.append(hexadecimal(*offset).as_str());
                text
            },
            CpkReaderError::FileTooLarge(size) => {
                let mut text = "file size does not fit the CPK format: ".to_owned();
                text.append(decimal(*size).as_str());
                text
            },
            CpkReaderError::GetFilesNotCalled => {
                "get_files must be called before extract_file".to_owned()
            },
            CpkReaderError::UnexpectedEof => "failed to fill whole buffer".to_owned(),
            CpkReaderError::Chunk(e) => e.message(),
            CpkReaderError::Table(e) => e.message(),
        }
    }
}

/// What the header of an archive tells.
#[derive(Debug, Clone, Copy, Default)]
pub struct CpkMetadata {
    pub file_size: u64,
    pub content_offset: u64,
    pub content_size: u64,
    pub toc_offset: u64,
    pub toc_size: u64,
    pub itoc_offset: u64,
    pub itoc_size: u64,
    pub etoc_offset: u64,
    pub etoc_size: u64,
    pub gtoc_offset: u64,
    pub gtoc_size: u64,
    pub version: u16,
    pub revision: u16,
    pub align: u16,
    pub sorted: bool,
    pub eid: u16,
    pub files: u32,
    pub cpk_mode: u32,
    pub enable_file_name: bool,
    pub update_date_time: u64,
    pub codec: u32,
    pub dpk_itoc: u32,
    pub enable_toc_crc: bool,
    pub enable_file_crc: bool,
}

/// The number in the first row of the column `name`; zero where there is none.
pub open spec fn field(t: TableView, name: Seq<char>) -> u64 {
    match t.number_named(0, name) {
        Some(v) => v,
        None => 0,
    }
}

/// `v` if it fits in 16 bits, else zero.
pub open spec fn fit16(v: u64) -> u16 {
    if v <= u16::MAX {
        v as u16
    } else {
        0
    }
}

/// `v` if it fits in 32 bits, else zero.
pub open spec fn fit32(v: u64) -> u32 {
    if v <= u32::MAX {
        v as u32
    } else {
        0
    }
}

/// What a header table tells.
pub open spec fn metadata_of(t: TableView) -> CpkMetadata {
    CpkMetadata {
        file_size: field(t, "FileSize"@),
        content_offset: field(t, "ContentOffset"@),
        content_size: field(t, "ContentSize"@),
        toc_offset: field(t, "TocOffset"@),
        toc_size: field(t, "TocSize"@),
        itoc_offset: field(t, "ItocOffset"@),
        itoc_size: field(t, "ItocSize"@),
        etoc_offset: field(t, "EtocOffset"@),
        etoc_size: field(t, "EtocSize"@),
        gtoc_offset: field(t, "GtocOffset"@),
        gtoc_size: field(t, "GtocSize"@),
        version: fit16(field(t, "Version"@)),
        revision: fit16(field(t, "Revision"@)),
        align: fit16(field(t, "Align"@)),
        sorted: field(t, "Sorted"@) != 0,
        eid: fit16(field(t, "EID"@)),
        files: fit32(field(t, "Files"@)),
        cpk_mode: fit32(field(t, "CpkMode"@)),
        enable_file_name: field(t, "EnableFileName"@) != 0,
        update_date_time: field(t, "UpdateDateTime"@),
        codec: fit32(field(t, "Codec"@)),
        dpk_itoc: fit32(field(t, "DpkItoc"@)),
        enable_toc_crc: field(t, "EnableTocCrc"@) != 0,
        enable_file_crc: field(t, "EnableFileCrc"@) != 0,
    }
}

/// The table in the chunk at `at`, which must be of this kind.
pub open spec fn table_at(stream: Seq<u8>, at: int, kind: CpkChunkKind) -> Result<
    TableView,
    CpkReaderError,
> {
    match chunk_at(stream, at) {
        Err(e) => Err(CpkReaderError::Chunk(e)),
        Ok((found, table)) => if found != kind {
            Err(CpkReaderError::InvalidHeaderChunk)
        } else {
            match table_of(table) {
                Err(e) => Err(CpkReaderError::Table(e)),
                Ok(t) => Ok(t),
            }
        },
    }
}

/// What the header of the archive at `start` tells.
pub open spec fn header_at(stream: Seq<u8>, start: int) -> Result<CpkMetadata, CpkReaderError> {
    match table_at(stream, start, CpkChunkKind::Cpk) {
        Err(e) => Err(e),
        Ok(t) => if t.rows.len() == 0 {
            Err(CpkReaderError::InvalidHeaderChunk)
        } else {
            Ok(metadata_of(t))
        },
    }
}

/// The text of a row in a column. Offset zero is the null reference, whatever
/// the pool holds there.
pub open spec fn text_at(t: TableView, row: int, column: int) -> Option<Seq<char>> {
    match t.value_at(row, column) {
        Some(RowValue::String(at)) => if at != 0 && t.strings.contains_key(at as int) {
            Some(t.strings[at as int])
        } else {
            None
        },
        _ => None,
    }
}

/// The number of a row in a column.
pub open spec fn number_at(t: TableView, row: int, column: int) -> Option<u64> {
    match t.value_at(row, column) {
        Some(value) => number_of(value),
        None => None,
    }
}

/// The text of a row in the column `name`; empty where there is none.
pub open spec fn text_or_empty(t: TableView, row: int, name: Seq<char>) -> Seq<char> {
    match t.index_of(name) {
        Some(column) => match text_at(t, row, column) {
            Some(text) => text,
            None => Seq::empty(),
        },
        None => Seq::empty(),
    }
}

/// The 32-bit number of a row in the column `name`.
pub open spec fn small_number(t: TableView, row: int, name: Seq<char>) -> Option<u32> {
    match t.index_of(name) {
        Some(column) => match number_at(t, row, column) {
            Some(v) => if v <= u32::MAX {
                Some(v as u32)
            } else {
                None
            },
            None => None,
        },
        None => None,
    }
}

/// The extracted size that a row tells; its packed size where it tells none.
pub open spec fn extract_number(t: TableView, row: int, column: Option<int>, packed: u64) -> u64 {
    match column {
        Some(c) => match number_at(t, row, c) {
            Some(v) => v,
            None => packed,
        },
        None => packed,
    }
}

/// The file that a row of a TOC describes.
pub open spec fn toc_file(t: TableView, row: int) -> Result<CpkFileView, CpkReaderError> {
    let name = text_at(t, row, t.index_of("FileName"@)->Some_0);
    let packed = number_at(t, row, t.index_of("FileSize"@)->Some_0);
    let offset = number_at(t, row, t.index_of("FileOffset"@)->Some_0);
    let extracted = extract_number(t, row, t.index_of("ExtractSize"@), packed->Some_0);
    if name is None {
        Err(CpkReaderError::MissingFileName)
    } else if packed is None {
        Err(CpkReaderError::MissingFileSize)
    } else if packed->Some_0 > u32::MAX {
        Err(CpkReaderError::FileTooLarge(packed->Some_0))
    } else if extracted > u32::MAX {
        Err(CpkReaderError::FileTooLarge(extracted))
    } else if offset is None || ENGINE_TOC_FILE_BASE + offset->Some_0 > u64::MAX {
        Err(CpkReaderError::MissingFileOffset)
    } else {
        Ok(
            CpkFileView {
                directory: text_or_empty(t, row, "DirName"@),
                file_name: name->Some_0,
                file_offset: offset->Some_0,
                absolute_offset: (ENGINE_TOC_FILE_BASE + offset->Some_0) as u64,
                file_size: packed->Some_0 as u32,
                extract_size: effective_extract_size(packed->Some_0 as u32, extracted as u32),
                id: small_number(t, row, "ID"@),
                user_string: text_or_empty(t, row, "UserString"@),
                file_crc: small_number(t, row, "FileCrc"@),
            },
        )
    }
}

/// The files of the first `count` rows of a TOC.
pub open spec fn toc_rows(t: TableView, count: nat) -> Result<Seq<CpkFileView>, CpkReaderError>
    decreases count,
{
    if count == 0 {
        Ok(Seq::empty())
    } else {
        match toc_rows(t, (count - 1) as nat) {
            Err(e) => Err(e),
            Ok(files) => match toc_file(t, count - 1) {
                Err(e) => Err(e),
                Ok(file) => Ok(files.push(file)),
            },
        }
    }
}

/// The files of a TOC.
pub open spec fn toc_files(t: TableView) -> Result<Seq<CpkFileView>, CpkReaderError> {
    if t.index_of("FileName"@) is None {
        Err(CpkReaderError::InvalidTocColumn("FileName"))
    } else if t.index_of("FileSize"@) is None {
        Err(CpkReaderError::InvalidTocColumn("FileSize"))
    } else if t.index_of("FileOffset"@) is None {
        Err(CpkReaderError::InvalidTocColumn("FileOffset"))
    } else {
        toc_rows(t, t.rows.len())
    }
}

/// A file as an ITOC describes it.
#[derive(Debug, Clone, Copy)]
pub struct ItocRow {
    pub id: u32,
    pub file_size: u32,
    pub extract_size: u32,
    pub file_crc: Option<u32>,
}

/// The column `name`, or the one at `fallback` where there is none.
pub open spec fn index_or(t: TableView, name: Seq<char>, fallback: int) -> int {
    match t.index_of(name) {
        Some(column) => column,
        None => fallback,
    }
}

/// The file that a row of an ITOC describes.
pub open spec fn itoc_row(t: TableView, row: int) -> Result<ItocRow, CpkReaderError> {
    let id = number_at(t, row, index_or(t, "ID"@, 0));
    let packed = number_at(t, row, index_or(t, "FileSize"@, 1));
    let extracted = extract_number(
        t,
        row,
        Some(index_or(t, "ExtractSize"@, 2)),
        packed->Some_0,
    );
    if id is None || id->Some_0 > u32::MAX {
        Err(CpkReaderError::InvalidItoc)
    } else if packed is None {
        Err(CpkReaderError::MissingFileSize)
    } else if packed->Some_0 > u32::MAX {
        Err(CpkReaderError::FileTooLarge(packed->Some_0))
    } else if extracted > u32::MAX {
        Err(CpkReaderError::FileTooLarge(extracted))
    } else {
        Ok(
            ItocRow {
                id: id->Some_0 as u32,
                file_size: packed->Some_0 as u32,
                extract_size: extracted as u32,
                file_crc: small_number(t, row, "FileCrc"@),
            },
        )
    }
}

/// The first `count` rows of an ITOC.
pub open spec fn itoc_rows(t: TableView, count: nat) -> Result<Seq<ItocRow>, CpkReaderError>
    decreases count,
{
    if count == 0 {
        Ok(Seq::empty())
    } else {
        match itoc_rows(t, (count - 1) as nat) {
            Err(e) => Err(e),
            Ok(rows) => match itoc_row(t, count - 1) {
                Err(e) => Err(e),
                Ok(row) => Ok(rows.push(row)),
            },
        }
    }
}

/// The rows of an ITOC. A standard one must have both nested tables; both are
/// parsed before their rows are read.
pub open spec fn all_itoc_rows(t: TableView, direct: bool) -> Result<Seq<ItocRow>, CpkReaderError> {
    if direct {
        itoc_rows(t, t.rows.len())
    } else {
        match (t.data_named(0, "DataL"@), t.data_named(0, "DataH"@)) {
            (Some(low), Some(high)) => match table_of(low) {
                Err(e) => Err(CpkReaderError::Table(e)),
                Ok(low_table) => match table_of(high) {
                    Err(e) => Err(CpkReaderError::Table(e)),
                    Ok(high_table) => match itoc_rows(low_table, low_table.rows.len()) {
                        Err(e) => Err(e),
                        Ok(low_rows) => match itoc_rows(high_table, high_table.rows.len()) {
                            Err(e) => Err(e),
                            Ok(high_rows) => Ok(low_rows + high_rows),
                        },
                    },
                },
            },
            _ => Err(CpkReaderError::InvalidItoc),
        }
    }
}

/// The sort keys of the rows' IDs.
pub open spec fn row_ranks(rows: Seq<ItocRow>) -> Seq<Seq<int>> {
    Seq::new(rows.len(), |i: int| seq![rows[i].id as int])
}

/// The rows by ascending ID.
pub open spec fn rows_by_id(rows: Seq<ItocRow>) -> Seq<ItocRow> {
    let order = order_of(row_ranks(rows));
    Seq::new(rows.len(), |k: int| rows[order[k]])
}

/// Two rows have the same ID.
pub open spec fn ids_repeat(rows: Seq<ItocRow>) -> bool {
    exists|i: int, j: int|
        0 <= i < j < rows.len() && (#[trigger] rows[i]).id == (#[trigger] rows[j]).id
}

/// Offset of the file of the row `k` behind the first file: the aligned sizes
/// of the files before it.
pub open spec fn relative_offset(rows: Seq<ItocRow>, alignment: int, k: int) -> int
    decreases k,
{
    if k <= 0 {
        0
    } else {
        relative_offset(rows, alignment, k - 1) + padded_size(
            rows[k - 1].file_size as int,
            alignment,
        )
    }
}

/// All offsets can be computed in 64 bits.
pub open spec fn offsets_fit(rows: Seq<ItocRow>, content_offset: int, alignment: int) -> bool {
    &&& forall|k: int|
        0 <= k < rows.len() ==> content_offset + #[trigger] relative_offset(rows, alignment, k)
            <= u64::MAX
    &&& relative_offset(rows, alignment, rows.len() as int) <= u64::MAX
}

/// The name of a file that has only an ID.
pub open spec fn id_name(id: u32) -> Seq<char> {
    zero_padded(numeral(id as nat, 10), 5) + ".bin"@
}

/// The file of the row `k`.
pub open spec fn itoc_file(rows: Seq<ItocRow>, content_offset: int, alignment: int, k: int) -> CpkFileView {
    let relative = relative_offset(rows, alignment, k);
    CpkFileView {
        directory: Seq::empty(),
        file_name: id_name(rows[k].id),
        file_offset: relative as u64,
        absolute_offset: (content_offset + relative) as u64,
        file_size: rows[k].file_size,
        extract_size: effective_extract_size(rows[k].file_size, rows[k].extract_size),
        id: Some(rows[k].id),
        user_string: Seq::empty(),
        file_crc: rows[k].file_crc,
    }
}

/// The files of rows in order.
pub open spec fn itoc_files(rows: Seq<ItocRow>, content_offset: int, alignment: int) -> Result<
    Seq<CpkFileView>,
    CpkReaderError,
> {
    if offsets_fit(rows, content_offset, alignment) {
        Ok(Seq::new(rows.len(), |k: int| itoc_file(rows, content_offset, alignment, k)))
    } else {
        Err(CpkReaderError::MissingFileOffset)
    }
}

/// The alignment that a header tells; one where it tells none.
pub open spec fn effective_alignment(align: u16) -> int {
    if align == 0 {
        1
    } else {
        align as int
    }
}

/// The files of the TOC of the archive at `start`.
pub open spec fn toc_listing(stream: Seq<u8>, start: int, m: CpkMetadata) -> Result<
    Seq<CpkFileView>,
    CpkReaderError,
> {
    if start + m.toc_offset > u64::MAX {
        Err(CpkReaderError::MissingFileOffset)
    } else {
        match table_at(stream, start + m.toc_offset, CpkChunkKind::Toc) {
            Err(e) => Err(e),
            Ok(t) => toc_files(t),
        }
    }
}

/// The files of the ITOC of the archive at `start`.
pub open spec fn itoc_listing(stream: Seq<u8>, start: int, m: CpkMetadata) -> Result<
    Seq<CpkFileView>,
    CpkReaderError,
> {
    if m.content_offset == 0 {
        Err(CpkReaderError::MissingContentOffset)
    } else if m.content_offset > u32::MAX {
        Err(CpkReaderError::ItocContentOffsetTooLarge(m.content_offset))
    } else if start + m.itoc_offset > u64::MAX {
        Err(CpkReaderError::MissingFileOffset)
    } else {
        match table_at(stream, start + m.itoc_offset, CpkChunkKind::Itoc) {
            Err(e) => Err(e),
            Ok(t) => match all_itoc_rows(t, m.eid != 0) {
                Err(e) => Err(e),
                Ok(rows) => if ids_repeat(rows) {
                    Err(CpkReaderError::InvalidItoc)
                } else {
                    itoc_files(
                        rows_by_id(rows),
                        m.content_offset as int,
                        effective_alignment(m.align),
                    )
                },
            },
        }
    }
}

/// The files of the archive at `start`, whose header tells `m`. An index by
/// name goes before one by ID.
pub open spec fn listing(stream: Seq<u8>, start: int, m: CpkMetadata) -> Result<
    Seq<CpkFileView>,
    CpkReaderError,
> {
    if m.toc_offset != 0 {
        toc_listing(stream, start, m)
    } else if m.itoc_offset != 0 {
        itoc_listing(stream, start, m)
    } else {
        Err(CpkReaderError::MissingTocAndItoc)
    }
}

/// The packed bytes of a file of the archive at `start`.
pub open spec fn packed_bytes(stream: Seq<u8>, start: int, file: CpkFileView) -> Result<
    Seq<u8>,
    CpkReaderError,
> {
    let at = start + file.absolute_offset;
    if at > u64::MAX {
        Err(CpkReaderError::MissingFileOffset)
    } else if file.file_size == 0 {
        Ok(Seq::empty())
    } else if at + file.file_size > stream.len() {
        Err(CpkReaderError::UnexpectedEof)
    } else {
        Ok(stream.subrange(at, at + file.file_size))
    }
}

/// The packed bytes of a file without encryption.
pub open spec fn decrypted<E: FileDecryptor>(file: CpkFileView, packed: Seq<u8>) -> Seq<u8> {
    if E::marks(file, packed) {
        E::transformed(packed)
    } else {
        packed
    }
}

/// The bytes of a file without compression.
pub open spec fn expanded<D: FileDecompressor>(data: Seq<u8>) -> Seq<u8> {
    if D::recognises(data) {
        D::decompressed(data)
    } else {
        data
    }
}

/// What the packed bytes of a file are extracted to: they are decrypted, and then
/// decompressed.
pub open spec fn extracted<E: FileDecryptor, D: FileDecompressor>(
    file: CpkFileView,
    packed: Seq<u8>,
) -> Seq<u8> {
    expanded::<D>(decrypted::<E>(file, packed))
}

/// Reads an archive that is held in memory.
#[derive(Debug)]
pub struct CpkReader<E: FileDecryptor = DummyDecryptor, D: FileDecompressor = DummyDecompressor> {
    stream: Vec<u8>,
    start_pos: u64,
    metadata: Option<CpkMetadata>,
    decryption: PhantomData<E>,
    decompression: PhantomData<D>,
}

/// The bytes that a reader reads, where the archive begins in them, and what
/// its header tells once it has been read.
#[verifier::ext_equal]
pub struct ReaderView {
    pub stream: Seq<u8>,
    pub start: int,
    pub metadata: Option<CpkMetadata>,
}

impl ReaderView {
    /// What the header of the archive tells.
    pub open spec fn header(self) -> Result<CpkMetadata, CpkReaderError> {
        header_at(self.stream, self.start)
    }

    /// The files of the archive.
    pub open spec fn files(self) -> Result<Seq<CpkFileView>, CpkReaderError> {
        match self.header() {
            Err(e) => Err(e),
            Ok(m) => listing(self.stream, self.start, m),
        }
    }

    /// The packed bytes of a file, which are read only once the header has been.
    pub open spec fn packed(self, file: CpkFileView) -> Result<Seq<u8>, CpkReaderError> {
        if self.metadata is None {
            Err(CpkReaderError::GetFilesNotCalled)
        } else {
            packed_bytes(self.stream, self.start, file)
        }
    }
}

impl<E: FileDecryptor, D: FileDecompressor> View for CpkReader<E, D> {
    type V = ReaderView;

    closed spec fn view(&self) -> ReaderView {
        ReaderView {
            stream: self.stream@,
            start: self.start_pos as int,
            metadata: self.metadata,
        }
    }
}

impl CpkReader<DummyDecryptor, DummyDecompressor> {
    /// A reader of an archive without file-level encryption and compression.
    pub fn new(stream: Vec<u8>) -> (reader: Self)
        ensures
            reader@ == (ReaderView { stream: stream@, start: 0, metadata: None }),
    {
        Self::new_with_encryption(stream)
    }
}

impl<E: FileDecryptor> CpkReader<E, DummyDecompressor> {
    /// A reader of an archive whose files may be encrypted by `E`.
    pub fn new_with_encryption(stream: Vec<u8>) -> (reader: Self)
        ensures
            reader@ == (ReaderView { stream: stream@, start: 0, metadata: None }),
    {
        Self::starting_at(stream, 0)
    }
}

/// The table in the chunk at `at`, which must be of this kind.
fn read_table(stream: &Vec<u8>, at: u64, kind: CpkChunkKind) -> (r: Result<
    HighTable<StringPoolFast>,
    CpkReaderError,
>)
    requires
        kind is Cpk || kind is Toc || kind is Itoc,
    ensures
        match table_at(stream@, at as int, kind) {
            Ok(t) => r matches Ok(table) && table@ == t,
            Err(e) => r matches Err(f) && f == e,
        },
{
    let container = match TableContainer::new(stream.as_slice(), at) {
        Ok(container) => container,
        Err(e) => {
            return Err(CpkReaderError::Chunk(e));
        },
    };
    let matching = match (container.kind(), kind) {
        (CpkChunkKind::Cpk, CpkChunkKind::Cpk) => true,
        (CpkChunkKind::Toc, CpkChunkKind::Toc) => true,
        (CpkChunkKind::Itoc, CpkChunkKind::Itoc) => true,
        _ => false,
    };
    if !matching {
        return Err(CpkReaderError::InvalidHeaderChunk);
    }
    match HighTable::new(container.into_table()) {
        Ok(table) => Ok(table),
        Err(e) => Err(CpkReaderError::Table(e)),
    }
}

fn field_value(table: &HighTable<StringPoolFast>, name: &str) -> (v: u64)
    ensures
        v == field(table@, name@),
{
    match table.u64_by_name(0, name) {
        Some(v) => v,
        None => 0,
    }
}

fn narrow16(v: u64) -> (r: u16)
    ensures
        r == fit16(v),
{
    if v <= u16::MAX as u64 {
        v as u16
    } else {
        0
    }
}

fn narrow32(v: u64) -> (r: u32)
    ensures
        r == fit32(v),
{
    if v <= u32::MAX as u64 {
        v as u32
    } else {
        0
    }
}

/// What a header table tells.
pub fn parse_metadata(table: &HighTable<StringPoolFast>) -> (m: CpkMetadata)
    ensures
        m == metadata_of(table@),
{
    CpkMetadata {
        file_size: field_value(table, "FileSize"),
        content_offset: field_value(table, "ContentOffset"),
        content_size: field_value(table, "ContentSize"),
        toc_offset: field_value(table, "TocOffset"),
        toc_size: field_value(table, "TocSize"),
        itoc_offset: field_value(table, "ItocOffset"),
        itoc_size: field_value(table, "ItocSize"),
        etoc_offset: field_value(table, "EtocOffset"),
        etoc_size: field_value(table, "EtocSize"),
        gtoc_offset: field_value(table, "GtocOffset"),
        gtoc_size: field_value(table, "GtocSize"),
        version: narrow16(field_value(table, "Version")),
        revision: narrow16(field_value(table, "Revision")),
        align: narrow16(field_value(table, "Align")),
        sorted: field_value(table, "Sorted") != 0,
        eid: narrow16(field_value(table, "EID")),
        files: narrow32(field_value(table, "Files")),
        cpk_mode: narrow32(field_value(table, "CpkMode")),
        enable_file_name: field_value(table, "EnableFileName") != 0,
        update_date_time: field_value(table, "UpdateDateTime"),
        codec: narrow32(field_value(table, "Codec")),
        dpk_itoc: narrow32(field_value(table, "DpkItoc")),
        enable_toc_crc: field_value(table, "EnableTocCrc") != 0,
        enable_file_crc: field_value(table, "EnableFileCrc") != 0,
    }
}

fn string_at<'a>(table: &'a HighTable<StringPoolFast>, row: usize, column: usize) -> (text: Option<
    &'a str,
>)
    ensures
        match text {
            Some(t) => text_at(table@, row as int, column as int) == Some(t@),
            None => text_at(table@, row as int, column as int) is None,
        },
{
    match table.value(row, column) {
        Some(RowValue::String(at)) => {
            if *at == 0 {
                None
            } else {
                table.get_strings().get_string(*at)
            }
        },
        _ => None,
    }
}

fn numeric_at(table: &HighTable<StringPoolFast>, row: usize, column: usize) -> (v: Option<u64>)
    ensures
        v == number_at(table@, row as int, column as int),
{
    match table.value(row, column) {
        Some(value) => row_value_to_u64(value),
        None => None,
    }
}

/// `index` is what looking up the column `name` gives.
spec fn found_at(t: TableView, name: Seq<char>, index: Option<usize>) -> bool {
    match index {
        Some(i) => t.index_of(name) == Some(i as int),
        None => t.index_of(name) is None,
    }
}

fn owned_text(
    table: &HighTable<StringPoolFast>,
    row: usize,
    column: Option<usize>,
    Ghost(name): Ghost<Seq<char>>,
) -> (text: String)
    requires
        found_at(table@, name, column),
    ensures
        text@ == text_or_empty(table@, row as int, name),
{
    match column {
        Some(index) => match string_at(table, row, index) {
            Some(text) => {
                return text.to_owned();
            },
            None => {},
        },
        None => {},
    }
    let text = String::new();
    assert(text@ =~= Seq::<char>::empty());
    text
}

fn small_value(
    table: &HighTable<StringPoolFast>,
    row: usize,
    column: Option<usize>,
    Ghost(name): Ghost<Seq<char>>,
) -> (v: Option<u32>)
    requires
        found_at(table@, name, column),
    ensures
        v == small_number(table@, row as int, name),
{
    match column {
        Some(index) => match numeric_at(table, row, index) {
            Some(v) => if v <= u32::MAX as u64 {
                Some(v as u32)
            } else {
                None
            },
            None => None,
        },
        None => None,
    }
}

fn extract_value(
    table: &HighTable<StringPoolFast>,
    row: usize,
    column: Option<usize>,
    packed: u64,
) -> (v: u64)
    ensures
        v == extract_number(
            table@,
            row as int,
            match column {
                Some(c) => Some(c as int),
                None => None,
            },
            packed,
        ),
{
    match column {
        Some(index) => match numeric_at(table, row, index) {
            Some(v) => v,
            None => packed,
        },
        None => packed,
    }
}

/// The columns of a TOC.
struct TocColumns {
    file_name: usize,
    file_size: usize,
    file_offset: usize,
    dir_name: Option<usize>,
    extract_size: Option<usize>,
    id: Option<usize>,
    user_string: Option<usize>,
    file_crc: Option<usize>,
}

impl TocColumns {
    spec fn of(self, t: TableView) -> bool {
        &&& found_at(t, "FileName"@, Some(self.file_name))
        &&& found_at(t, "FileSize"@, Some(self.file_size))
        &&& found_at(t, "FileOffset"@, Some(self.file_offset))
        &&& found_at(t, "DirName"@, self.dir_name)
        &&& found_at(t, "ExtractSize"@, self.extract_size)
        &&& found_at(t, "ID"@, self.id)
        &&& found_at(t, "UserString"@, self.user_string)
        &&& found_at(t, "FileCrc"@, self.file_crc)
    }
}

fn toc_entry(toc: &HighTable<StringPoolFast>, columns: &TocColumns, row: usize) -> (r: Result<
    CpkFile,
    CpkReaderError,
>)
    requires
        columns.of(toc@),
    ensures
        match toc_file(toc@, row as int) {
            Ok(file) => r matches Ok(f) && f@ == file,
            Err(e) => r matches Err(f) && f == e,
        },
{
    let file_name = match string_at(toc, row, columns.file_name) {
        Some(name) => name.to_owned(),
        None => {
            return Err(CpkReaderError::MissingFileName);
        },
    };
    let directory = owned_text(toc, row, columns.dir_name, Ghost("DirName"@));
    let user_string = owned_text(toc, row, columns.user_string, Ghost("UserString"@));
    let packed: u64 = match numeric_at(toc, row, columns.file_size) {
        Some(v) => v,
        None => {
            return Err(CpkReaderError::MissingFileSize);
        },
    };
    if packed > u32::MAX as u64 {
        return Err(CpkReaderError::FileTooLarge(packed));
    }
    let extracted: u64 = extract_value(toc, row, columns.extract_size, packed);
    if extracted > u32::MAX as u64 {
        return Err(CpkReaderError::FileTooLarge(extracted));
    }
    let file_offset: u64 = match numeric_at(toc, row, columns.file_offset) {
        Some(v) => v,
        None => {
            return Err(CpkReaderError::MissingFileOffset);
        },
    };
    let id = small_value(toc, row, columns.id, Ghost("ID"@));
    let file_crc = small_value(toc, row, columns.file_crc, Ghost("FileCrc"@));
    let absolute_offset: u64 = match ENGINE_TOC_FILE_BASE.checked_add(file_offset) {
        Some(v) => v,
        None => {
            return Err(CpkReaderError::MissingFileOffset);
        },
    };
    Ok(
        CpkFile::new(
            directory,
            file_name,
            file_offset,
            absolute_offset,
            packed as u32,
            extracted as u32,
            id,
            user_string,
            file_crc,
        ),
    )
}

/// The files of a TOC.
fn toc_entries(toc: &HighTable<StringPoolFast>) -> (r: Result<Vec<CpkFile>, CpkReaderError>)
    ensures
        match toc_files(toc@) {
            Ok(files) => r matches Ok(v) && files_view(v@) == files,
            Err(e) => r matches Err(f) && f == e,
        },
{
    let file_name: usize = match toc.column_index("FileName") {
        Some(index) => index,
        None => {
            return Err(CpkReaderError::InvalidTocColumn("FileName"));
        },
    };
    let file_size: usize = match toc.column_index("FileSize") {
        Some(index) => index,
        None => {
            return Err(CpkReaderError::InvalidTocColumn("FileSize"));
        },
    };
    let file_offset: usize = match toc.column_index("FileOffset") {
        Some(index) => index,
        None => {
            return Err(CpkReaderError::InvalidTocColumn("FileOffset"));
        },
    };
    let columns = TocColumns {
        file_name,
        file_size,
        file_offset,
        dir_name: toc.column_index("DirName"),
        extract_size: toc.column_index("ExtractSize"),
        id: toc.column_index("ID"),
        user_string: toc.column_index("UserString"),
        file_crc: toc.column_index("FileCrc"),
    };
    let mut files: Vec<CpkFile> = Vec::new();
    let mut row: usize = 0;
    assert(files_view(files@) =~= Seq::empty());
    while row < toc.row_count()
        invariant
            row <= toc@.rows.len(),
            columns.of(toc@),
            toc_rows(toc@, row as nat) == Ok::<Seq<CpkFileView>, CpkReaderError>(
                files_view(files@),
            ),
        decreases toc@.rows.len() - row,
    {
        match toc_entry(toc, &columns, row) {
            Ok(file) => {
                let ghost before = files@;
                files.push(file);
                assert(files_view(files@) =~= files_view(before).push(file@));
            },
            Err(e) => {
                proof {
                    lemma_toc_rows_error(toc@, (row + 1) as nat, toc@.rows.len());
                }
                return Err(e);
            },
        }
        row = row + 1;
    }
    Ok(files)
}

proof fn lemma_toc_rows_error(t: TableView, few: nat, many: nat)
    requires
        few <= many,
        toc_rows(t, few) is Err,
    ensures
        toc_rows(t, many) == toc_rows(t, few),
    decreases many,
{
    if few < many {
        lemma_toc_rows_error(t, few, (many - 1) as nat);
    }
}

proof fn lemma_itoc_rows_error(t: TableView, few: nat, many: nat)
    requires
        few <= many,
        itoc_rows(t, few) is Err,
    ensures
        itoc_rows(t, many) == itoc_rows(t, few),
    decreases many,
{
    if few < many {
        lemma_itoc_rows_error(t, few, (many - 1) as nat);
    }
}

fn index_or_fallback(index: Option<usize>, fallback: usize) -> (i: usize)
    ensures
        i == (match index {
            Some(v) => v,
            None => fallback,
        }),
{
    match index {
        Some(v) => v,
        None => fallback,
    }
}

/// Appends the rows of an ITOC table to `rows`.
fn collect_itoc_rows(table: &HighTable<StringPoolFast>, rows: &mut Vec<ItocRow>) -> (r: Result<
    (),
    CpkReaderError,
>)
    ensures
        match itoc_rows(table@, table@.rows.len()) {
            Ok(read) => r is Ok && final(rows)@ == old(rows)@ + read,
            Err(e) => r matches Err(f) && f == e,
        },
{
    let id_column: usize = index_or_fallback(table.column_index("ID"), 0);
    let size_column: usize = index_or_fallback(table.column_index("FileSize"), 1);
    let extract_column: usize = index_or_fallback(table.column_index("ExtractSize"), 2);
    let crc_column = table.column_index("FileCrc");
    let ghost before = rows@;
    let ghost mut read = Seq::<ItocRow>::empty();
    let mut row: usize = 0;
    assert(rows@ =~= before + read);
    while row < table.row_count()
        invariant
            row <= table@.rows.len(),
            id_column == index_or(table@, "ID"@, 0),
            size_column == index_or(table@, "FileSize"@, 1),
            extract_column == index_or(table@, "ExtractSize"@, 2),
            found_at(table@, "FileCrc"@, crc_column),
            itoc_rows(table@, row as nat) == Ok::<Seq<ItocRow>, CpkReaderError>(read),
            rows@ == before + read,
        decreases table@.rows.len() - row,
    {
        match itoc_entry(table, id_column, size_column, extract_column, crc_column, row) {
            Ok(entry) => {
                rows.push(entry);
                proof {
                    read = read.push(entry);
                    assert(rows@ =~= before + read);
                }
            },
            Err(e) => {
                proof {
                    lemma_itoc_rows_error(table@, (row + 1) as nat, table@.rows.len());
                }
                return Err(e);
            },
        }
        row = row + 1;
    }
    Ok(())
}

fn itoc_entry(
    table: &HighTable<StringPoolFast>,
    id_column: usize,
    size_column: usize,
    extract_column: usize,
    crc_column: Option<usize>,
    row: usize,
) -> (r: Result<ItocRow, CpkReaderError>)
    requires
        id_column == index_or(table@, "ID"@, 0),
        size_column == index_or(table@, "FileSize"@, 1),
        extract_column == index_or(table@, "ExtractSize"@, 2),
        found_at(table@, "FileCrc"@, crc_column),
    ensures
        match itoc_row(table@, row as int) {
            Ok(read) => r matches Ok(v) && v == read,
            Err(e) => r matches Err(f) && f == e,
        },
{
    let id: u64 = match numeric_at(table, row, id_column) {
        Some(v) => v,
        None => {
            return Err(CpkReaderError::InvalidItoc);
        },
    };
    if id > u32::MAX as u64 {
        return Err(CpkReaderError::InvalidItoc);
    }
    let packed: u64 = match numeric_at(table, row, size_column) {
        Some(v) => v,
        None => {
            return Err(CpkReaderError::MissingFileSize);
        },
    };
    if packed > u32::MAX as u64 {
        return Err(CpkReaderError::FileTooLarge(packed));
    }
    let extracted: u64 = extract_value(table, row, Some(extract_column), packed);
    if extracted > u32::MAX as u64 {
        return Err(CpkReaderError::FileTooLarge(extracted));
    }
    let file_crc = small_value(table, row, crc_column, Ghost("FileCrc"@));
    Ok(
        ItocRow {
            id: id as u32,
            file_size: packed as u32,
            extract_size: extracted as u32,
            file_crc,
        },
    )
}

/// The rows of an ITOC.
fn read_itoc_rows(itoc: &HighTable<StringPoolFast>, direct: bool) -> (r: Result<
    Vec<ItocRow>,
    CpkReaderError,
>)
    ensures
        match all_itoc_rows(itoc@, direct) {
            Ok(rows) => r matches Ok(v) && v@ == rows,
            Err(e) => r matches Err(f) && f == e,
        },
{
    let mut rows: Vec<ItocRow> = Vec::new();
    if direct {
        match collect_itoc_rows(itoc, &mut rows) {
            Ok(_) => {},
            Err(e) => {
                return Err(e);
            },
        }
        assert(rows@ =~= all_itoc_rows(itoc@, direct)->Ok_0);
        return Ok(rows);
    }
    let low_data: &[u8] = match itoc.data_by_name(0, "DataL") {
        Some(data) => data,
        None => {
            return Err(CpkReaderError::InvalidItoc);
        },
    };
    let high_data: &[u8] = match itoc.data_by_name(0, "DataH") {
        Some(data) => data,
        None => {
            return Err(CpkReaderError::InvalidItoc);
        },
    };
    assert(low_data@.subrange(0, low_data@.len() as int) =~= low_data@);
    assert(high_data@.subrange(0, high_data@.len() as int) =~= high_data@);
    let low = match HighTable::new(copy_range(low_data, 0, low_data.len())) {
        Ok(table) => table,
        Err(e) => {
            return Err(CpkReaderError::Table(e));
        },
    };
    let high = match HighTable::new(copy_range(high_data, 0, high_data.len())) {
        Ok(table) => table,
        Err(e) => {
            return Err(CpkReaderError::Table(e));
        },
    };
    match collect_itoc_rows(&low, &mut rows) {
        Ok(_) => {},
        Err(e) => {
            return Err(e);
        },
    }
    match collect_itoc_rows(&high, &mut rows) {
        Ok(_) => {},
        Err(e) => {
            return Err(e);
        },
    }
    assert(rows@ =~= all_itoc_rows(itoc@, direct)->Ok_0);
    Ok(rows)
}

/// Rows by ascending ID have no two equal IDs next to each other exactly when
/// no ID repeats, and then the IDs ascend strictly.
proof fn lemma_sorted_rows(rows: Seq<ItocRow>)
    ensures
        rows_by_id(rows).len() == rows.len(),
        forall|a: int, b: int|
            0 <= a < b < rows.len() ==> (#[trigger] rows_by_id(rows)[a]).id <= (
            #[trigger] rows_by_id(rows)[b]).id,
        ids_repeat(rows) <==> exists|k: int|
            0 <= k < rows.len() - 1 && (#[trigger] rows_by_id(rows)[k]).id == rows_by_id(rows)[k
                + 1].id,
{
    let keys = row_ranks(rows);
    lemma_order_of(keys);
    let order = order_of(keys);
    let sorted = rows_by_id(rows);
    assert forall|a: int, b: int| 0 <= a < b < rows.len() implies (#[trigger] sorted[a]).id <= (
    #[trigger] sorted[b]).id by {
        assert(comes_before(keys, order[a], order[b]));
        lemma_lex_single(rows[order[a]].id as int, rows[order[b]].id as int);
    }
    if ids_repeat(rows) {
        let (i, j) = choose|i: int, j: int|
            0 <= i < j < rows.len() && (#[trigger] rows[i]).id == (#[trigger] rows[j]).id;
        assert(order.contains(i) && order.contains(j));
        let a = choose|a: int| 0 <= a < order.len() && order[a] == i;
        let b = choose|b: int| 0 <= b < order.len() && order[b] == j;
        let (x, y) = if a < b {
            (a, b)
        } else {
            (b, a)
        };
        assert(sorted[x].id == sorted[y].id);
        assert(sorted[x].id <= sorted[x + 1].id);
        if x + 1 < y {
            assert(sorted[x + 1].id <= sorted[y].id);
        }
        assert(sorted[x].id == sorted[x + 1].id);
    }
    if exists|k: int| 0 <= k < rows.len() - 1 && (#[trigger] sorted[k]).id == sorted[k + 1].id {
        let k = choose|k: int|
            0 <= k < rows.len() - 1 && (#[trigger] sorted[k]).id == sorted[k + 1].id;
        let (i, j) = (order[k], order[k + 1]);
        assert(comes_before(keys, order[k], order[k + 1]));
        assert(i != j);
        if i < j {
            assert(rows[i].id == rows[j].id);
        } else {
            assert(rows[j].id == rows[i].id);
        }
    }
}

/// The rows by ascending ID; `None` where an ID repeats.
fn sort_itoc_rows(rows: &Vec<ItocRow>) -> (sorted: Option<Vec<ItocRow>>)
    ensures
        match sorted {
            Some(v) => !ids_repeat(rows@) && v@ == rows_by_id(rows@),
            None => ids_repeat(rows@),
        },
{
    let mut ids: Vec<u32> = Vec::new();
    let mut i: usize = 0;
    while i < rows.len()
        invariant
            i <= rows@.len(),
            ids@.len() == i,
            forall|k: int| 0 <= k < i ==> #[trigger] ids@[k] == rows@[k].id,
        decreases rows@.len() - i,
    {
        ids.push(rows[i].id);
        i = i + 1;
    }
    assert(ranks(ids@) =~= row_ranks(rows@));
    let order = stable_order(&ids);
    proof {
        lemma_sorted_rows(rows@);
    }
    let mut sorted: Vec<ItocRow> = Vec::new();
    let mut k: usize = 0;
    while k < order.len()
        invariant
            k <= order@.len(),
            order@.len() == rows@.len(),
            as_ints(order@) == order_of(row_ranks(rows@)),
            is_order(as_ints(order@), row_ranks(rows@)),
            sorted@.len() == k,
            forall|j: int| 0 <= j < k ==> #[trigger] sorted@[j] == rows_by_id(rows@)[j],
        decreases order@.len() - k,
    {
        assert(as_ints(order@)[k as int] == order@[k as int]);
        sorted.push(rows[order[k]]);
        k = k + 1;
    }
    assert(sorted@ =~= rows_by_id(rows@));
    let mut k: usize = 1;
    while k < sorted.len()
        invariant
            1 <= k,
            k <= sorted@.len() || sorted@.len() == 0,
            sorted@ == rows_by_id(rows@),
            sorted@.len() == rows@.len(),
            ids_repeat(rows@) <==> exists|j: int|
                0 <= j < rows@.len() - 1 && (#[trigger] rows_by_id(rows@)[j]).id == rows_by_id(
                    rows@,
                )[j + 1].id,
            forall|j: int| 0 <= j < k - 1 ==> (#[trigger] sorted@[j]).id != sorted@[j + 1].id,
        decreases sorted@.len() - k,
    {
        if sorted[k - 1].id == sorted[k].id {
            assert(rows_by_id(rows@)[k - 1].id == rows_by_id(rows@)[k - 1 + 1].id);
            return None;
        }
        k = k + 1;
    }
    Some(sorted)
}

proof fn lemma_relative_offset(rows: Seq<ItocRow>, alignment: int, k: int)
    requires
        0 <= k < rows.len(),
    ensures
        0 <= relative_offset(rows, alignment, k) <= relative_offset(rows, alignment, k + 1),
    decreases k,
{
    if k > 0 {
        lemma_relative_offset(rows, alignment, k - 1);
    }
    lemma_padded(rows[k].file_size as int, alignment);
}

proof fn lemma_relative_monotonic(rows: Seq<ItocRow>, alignment: int, j: int, k: int)
    requires
        0 <= j <= k <= rows.len(),
    ensures
        relative_offset(rows, alignment, j) <= relative_offset(rows, alignment, k),
    decreases k - j,
{
    if j < k {
        lemma_relative_monotonic(rows, alignment, j, k - 1);
        lemma_relative_offset(rows, alignment, k - 1);
    }
}

/// The files of rows in order.
fn materialize_itoc_rows(rows: &Vec<ItocRow>, content_offset: u64, alignment: u64) -> (r: Result<
    Vec<CpkFile>,
    CpkReaderError,
>)
    ensures
        match itoc_files(rows@, content_offset as int, alignment as int) {
            Ok(files) => r matches Ok(v) && files_view(v@) == files,
            Err(e) => r matches Err(f) && f == e,
        },
{
    let ghost a = alignment as int;
    let mut relative: u64 = 0;
    let mut files: Vec<CpkFile> = Vec::new();
    let mut k: usize = 0;
    while k < rows.len()
        invariant
            k <= rows@.len(),
            a == alignment,
            relative == relative_offset(rows@, a, k as int),
            files@.len() == k,
            forall|j: int|
                0 <= j < k ==> content_offset + #[trigger] relative_offset(rows@, a, j) <= u64::MAX,
            forall|j: int|
                0 <= j < k ==> (#[trigger] files@[j])@ == itoc_file(
                    rows@,
                    content_offset as int,
                    a,
                    j,
                ),
        decreases rows@.len() - k,
    {
        let row: ItocRow = rows[k];
        let absolute: u64 = match content_offset.checked_add(relative) {
            Some(v) => v,
            None => {
                assert(content_offset + relative_offset(rows@, a, k as int) > u64::MAX);
                return Err(CpkReaderError::MissingFileOffset);
            },
        };
        let mut file_name = pad_zeros(decimal(row.id as u64), 5);
        file_name.append(".bin");
        let directory = String::new();
        let user_string = String::new();
        assert(directory@ =~= Seq::<char>::empty());
        assert(user_string@ =~= Seq::<char>::empty());
        let file = CpkFile::new(
            directory,
            file_name,
            relative,
            absolute,
            row.file_size,
            row.extract_size,
            Some(row.id),
            user_string,
            row.file_crc,
        );
        assert(file@ == itoc_file(rows@, content_offset as int, a, k as int));
        files.push(file);
        proof {
            lemma_padded(row.file_size as int, a);
            lemma_relative_monotonic(rows@, a, k + 1, rows@.len() as int);
        }
        let padded: u64 = match pad_up(row.file_size as u64, alignment) {
            Some(v) => v,
            None => {
                return Err(CpkReaderError::MissingFileOffset);
            },
        };
        relative = match relative.checked_add(padded) {
            Some(v) => v,
            None => {
                return Err(CpkReaderError::MissingFileOffset);
            },
        };
        k = k + 1;
    }
    assert(files_view(files@) =~= Seq::new(
        rows@.len(),
        |j: int| itoc_file(rows@, content_offset as int, a, j),
    ));
    Ok(files)
}

impl<E: FileDecryptor, D: FileDecompressor> CpkReader<E, D> {
    /// A reader of an archive that begins at `start_pos`, whose files may be
    /// encrypted by `E` and compressed in the way of `D`.
    pub fn starting_at(stream: Vec<u8>, start_pos: u64) -> (reader: Self)
        ensures
            reader@ == (ReaderView {
                stream: stream@,
                start: start_pos as int,
                metadata: None,
            }),
    {
        CpkReader {
            stream,
            start_pos,
            metadata: None,
            decryption: PhantomData,
            decompression: PhantomData,
        }
    }

    /// What the header tells, once the files have been listed.
    pub fn metadata(&self) -> (m: Option<&CpkMetadata>)
        ensures
            match m {
                Some(m) => self@.metadata == Some(*m),
                None => self@.metadata is None,
            },
    {
        self.metadata.as_ref()
    }

    /// The files of the archive.
    pub fn get_files(&mut self) -> (r: Result<Vec<CpkFile>, CpkReaderError>)
        ensures
            final(self)@.stream == old(self)@.stream,
            final(self)@.start == old(self)@.start,
            final(self)@.metadata == match old(self)@.header() {
                Ok(m) => Some(m),
                Err(_) => old(self)@.metadata,
            },
            match old(self)@.files() {
                Ok(files) => r matches Ok(v) && files_view(v@) == files,
                Err(e) => r matches Err(f) && f == e,
            },
    {
        let table = match read_table(&self.stream, self.start_pos, CpkChunkKind::Cpk) {
            Ok(table) => table,
            Err(e) => {
                return Err(e);
            },
        };
        if table.row_count() == 0 {
            return Err(CpkReaderError::InvalidHeaderChunk);
        }
        let metadata = parse_metadata(&table);
        self.metadata = Some(metadata);
        if metadata.toc_offset != 0 {
            return self.read_toc(metadata);
        }
        if metadata.itoc_offset != 0 {
            return self.read_itoc(metadata);
        }
        Err(CpkReaderError::MissingTocAndItoc)
    }

    fn read_toc(&self, metadata: CpkMetadata) -> (r: Result<Vec<CpkFile>, CpkReaderError>)
        ensures
            match toc_listing(self@.stream, self@.start, metadata) {
                Ok(files) => r matches Ok(v) && files_view(v@) == files,
                Err(e) => r matches Err(f) && f == e,
            },
    {
        let position: u64 = match self.start_pos.checked_add(metadata.toc_offset) {
            Some(v) => v,
            None => {
                return Err(CpkReaderError::MissingFileOffset);
            },
        };
        match read_table(&self.stream, position, CpkChunkKind::Toc) {
            Ok(toc) => toc_entries(&toc),
            Err(e) => Err(e),
        }
    }

    fn read_itoc(&self, metadata: CpkMetadata) -> (r: Result<Vec<CpkFile>, CpkReaderError>)
        ensures
            match itoc_listing(self@.stream, self@.start, metadata) {
                Ok(files) => r matches Ok(v) && files_view(v@) == files,
                Err(e) => r matches Err(f) && f == e,
            },
    {
        if metadata.content_offset == 0 {
            return Err(CpkReaderError::MissingContentOffset);
        }
        if metadata.content_offset > u32::MAX as u64 {
            return Err(CpkReaderError::ItocContentOffsetTooLarge(metadata.content_offset));
        }
        let position: u64 = match self.start_pos.checked_add(metadata.itoc_offset) {
            Some(v) => v,
            None => {
                return Err(CpkReaderError::MissingFileOffset);
            },
        };
        let itoc = match read_table(&self.stream, position, CpkChunkKind::Itoc) {
            Ok(itoc) => itoc,
            Err(e) => {
                return Err(e);
            },
        };
        let rows = match read_itoc_rows(&itoc, metadata.eid != 0) {
            Ok(rows) => rows,
            Err(e) => {
                return Err(e);
            },
        };
        let sorted = match sort_itoc_rows(&rows) {
            Some(sorted) => sorted,
            None => {
                return Err(CpkReaderError::InvalidItoc);
            },
        };
        let alignment: u64 = if metadata.align == 0 {
            1
        } else {
            metadata.align as u64
        };
        materialize_itoc_rows(&sorted, metadata.content_offset, alignment)
    }

    /// The packed bytes of a file.
    pub fn read_packed_file(&mut self, file: &CpkFile) -> (r: Result<Vec<u8>, CpkReaderError>)
        ensures
            final(self)@ == old(self)@,
            match old(self)@.packed(file@) {
                Ok(bytes) => r matches Ok(v) && v@ == bytes,
                Err(e) => r matches Err(f) && f == e,
            },
    {
        if self.metadata.is_none() {
            return Err(CpkReaderError::GetFilesNotCalled);
        }
        let at: u64 = match self.start_pos.checked_add(file.absolute_offset()) {
            Some(v) => v,
            None => {
                return Err(CpkReaderError::MissingFileOffset);
            },
        };
        let size: u64 = file.file_size() as u64;
        if size == 0 {
            return Ok(Vec::new());
        }
        if at > self.stream.len() as u64 || size > self.stream.len() as u64 - at {
            return Err(CpkReaderError::UnexpectedEof);
        }
        Ok(copy_range(self.stream.as_slice(), at as usize, at as usize + size as usize))
    }

    /// The packed bytes of a file, and what they are extracted to.
    pub fn extract_file_with_packed(&mut self, file: &CpkFile) -> (r: Result<
        (Vec<u8>, Vec<u8>),
        CpkReaderError,
    >)
        ensures
            final(self)@ == old(self)@,
            match old(self)@.packed(file@) {
                Ok(bytes) => r matches Ok((packed, output)) && packed@ == bytes && output@
                    == extracted::<E, D>(file@, bytes),
                Err(e) => r matches Err(f) && f == e,
            },
    {
        let packed = match self.read_packed_file(file) {
            Ok(packed) => packed,
            Err(e) => {
                return Err(e);
            },
        };
        let mut output = copy_range(packed.as_slice(), 0, packed.len());
        assert(output@ =~= packed@);
        if E::is_encrypted(file, &output) {
            E::decrypt_in_place(&mut output);
        }
        if D::is_compressed(&output) {
            output = D::decompress(&output);
        }
        Ok((packed, output))
    }

    /// What a file is extracted to.
    pub fn extract_file(&mut self, file: &CpkFile) -> (r: Result<Vec<u8>, CpkReaderError>)
        ensures
            final(self)@ == old(self)@,
            match old(self)@.packed(file@) {
                Ok(bytes) => r matches Ok(output) && output@ == extracted::<E, D>(file@, bytes),
                Err(e) => r matches Err(f) && f == e,
            },
    {
        match self.extract_file_with_packed(file) {
            Ok((_, output)) => Ok(output),
            Err(e) => Err(e),
        }
    }

    /// The bytes that the reader was made from.
    pub fn into_inner(self) -> (stream: Vec<u8>)
        ensures
            stream@ == self@.stream,
    {
        self.stream
    }
}

} // verus!
