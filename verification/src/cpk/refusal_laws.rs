//! What is refused, and what the refusal tells.

use vstd::prelude::*;
use vstd::utf8::*;

use crate::cpk::encrypt::data::FileDecryptor;
use crate::cpk::encrypt::table::{law_cipher_applies_key_powers, table_cipher, utf_signature};
use crate::cpk::error::WriterErrorView;
use crate::cpk::file::CpkFileView;
use crate::cpk::header::{
    chunk_at, chunk_kind, law_chunk_magic_roundtrip, table_of, ChunkError, CpkChunkKind, TableView,
};
use crate::cpk::input::InputView;
use crate::cpk::layout::{id_problem, Job};
use crate::cpk::reader::{
    header_at, itoc_files, listing, offsets_fit, relative_offset, table_at, toc_file, toc_files,
    toc_rows, CpkMetadata, CpkReaderError, ItocRow,
};
use crate::cpk::table_laws::{law_kinds_are_spelled, scrambled};
use crate::cpk::writer::packed;
use crate::schema::error::TableError;
use crate::schema::header::{table_header, StringEncoding};
use crate::schema::rows::RowValue;
use crate::schema::strings::{
    pool_strings, string_begins, string_bytes, undecodable_at, zero_from,
};
use crate::utils::align::lemma_padded;
use crate::utils::bytes::{le_u64, stands_at};
use crate::utils::text::{ascii_until, decode_buffer, utf8_mark};

verus! {

/// The bytes begin with `@UTF`.
pub open spec fn is_signed(table: Seq<u8>) -> bool {
    table.len() >= 4 && table.take(4) == seq!['@' as u8, 'U' as u8, 'T' as u8, 'F' as u8]
}

/// A chunk is taken just where its sixteen bytes and its table stand in the stream,
/// the table has the size of a table header at least, a header chunk ends within
/// 0x800 bytes, and the table, unscrambled where the marker says so, is signed. A
/// refused chunk is told with its kind and its sizes.
pub proof fn law_damaged_chunks_are_refused(stream: Seq<u8>, at: int)
    requires
        0 <= at,
    ensures
        ({
            let size = le_u64(stream, at + 8);
            let remaining = stream.len() - at - 16;
            let kind = chunk_kind(stream.subrange(at, at + 4));
            let stored = stream.subrange(at + 16, at + 16 + size);
            let whole = remaining >= 0 && 0x20 <= size <= remaining && size <= usize::MAX && (
            kind is Cpk ==> size <= 0x7f0);
            &&& chunk_at(stream, at) is Ok <==> whole && is_signed(
                if stream[at + 4] == 0 {
                    scrambled(stored)
                } else {
                    stored
                },
            )
            &&& chunk_at(stream, at) == Err::<(CpkChunkKind, Seq<u8>), ChunkError>(
                ChunkError::UnexpectedEof,
            ) <==> remaining < 0
            &&& chunk_at(stream, at) matches Err(e) ==> match e {
                ChunkError::UnexpectedEof => true,
                ChunkError::TableTooLarge { size: s } => s == size && s > usize::MAX,
                ChunkError::InvalidTableSize { kind: k, size: s } => k == kind && s == size && s
                    < 0x20,
                ChunkError::HeaderAreaExceeded { size: s } => kind is Cpk && s == size && s
                    > 0x7f0,
                ChunkError::TruncatedTable { kind: k, size: s, remaining: r } => k == kind && s
                    == size && s > r && (remaining <= u64::MAX ==> r == remaining),
                ChunkError::MissingSignature { kind: k } => k == kind && whole,
            }
        }),
{
    let size = le_u64(stream, at + 8);
    let stored = stream.subrange(at + 16, at + 16 + size);
    assert(utf_signature() =~= seq!['@' as u8, 'U' as u8, 'T' as u8, 'F' as u8]);
    if stream.len() - at - 16 >= size {
        assert(scrambled(stored) =~= table_cipher(stored)) by {
            assert forall|i: int| 0 <= i < stored.len() implies scrambled(stored)[i]
                == #[trigger] table_cipher(stored)[i] by {
                law_cipher_applies_key_powers(stored, i);
            }
        }
        lemma_signed(stored);
        lemma_signed(scrambled(stored));
    }
}

proof fn lemma_signed(table: Seq<u8>)
    ensures
        is_signed(table) <==> utf_signature().is_prefix_of(table),
{
    assert(utf_signature() =~= seq!['@' as u8, 'U' as u8, 'T' as u8, 'F' as u8]);
    if table.len() >= 4 {
        assert(table.take(4) =~= table.subrange(0, 4));
    }
}

/// A table is refused where it is not signed, where it is larger than the bytes at
/// hand, or where its sections stand in another order than header, columns, rows,
/// texts and data, or run into each other.
pub proof fn law_damaged_tables_are_refused(alloc: Seq<u8>)
    ensures
        ({
            let h = table_header(alloc);
            let signed = alloc.len() >= 0x20 && is_signed(alloc);
            let ordered = 0x20 <= h.rows_field + 8 <= h.strings_field + 8 <= h.data_field + 8
                <= h.size_field + 8;
            let apart = h.rows_field + h.row_size_field * h.rows_count_field <= h.strings_field;
            &&& table_of(alloc) is Ok ==> signed && ordered && apart && h.size_field + 8
                <= alloc.len()
            &&& !signed ==> table_of(alloc) == Err::<TableView, TableError>(
                TableError::InvalidTable,
            )
            &&& signed && h.size_field + 8 <= alloc.len() && !ordered ==> table_of(alloc) == Err::<
                TableView,
                TableError,
            >(TableError::InvalidSectionOffsets)
            &&& signed && h.size_field + 8 <= alloc.len() && ordered && !apart ==> table_of(alloc)
                == Err::<TableView, TableError>(TableError::RowsOverlapStrings)
            &&& signed && h.size_field + 8 > alloc.len() ==> table_of(alloc) == Err::<
                TableView,
                TableError,
            >(
                TableError::Truncated {
                    declared: (h.size_field + 8) as u64,
                    available: alloc.len() as u64,
                },
            )
        }),
{
    lemma_signed(alloc);
}

/// A table is read from a chunk only where the chunk begins with the magic of its
/// kind; what is wrong with the chunk or with the table is told as it is.
pub proof fn law_chunks_of_other_kinds_are_refused(stream: Seq<u8>, at: int, kind: CpkChunkKind)
    requires
        0 <= at,
        kind !is Unknown,
    ensures
        table_at(stream, at, kind) is Ok ==> stands_at(stream, at, kind.magic_bytes()),
        chunk_at(stream, at) matches Err(e) ==> table_at(stream, at, kind) == Err::<
            TableView,
            CpkReaderError,
        >(CpkReaderError::Chunk(e)),
        (chunk_at(stream, at) matches Ok((k, table)) && !stands_at(
            stream,
            at,
            kind.magic_bytes(),
        )) ==> table_at(stream, at, kind) == Err::<TableView, CpkReaderError>(
            CpkReaderError::InvalidHeaderChunk,
        ),
        (chunk_at(stream, at) matches Ok((k, table)) && stands_at(stream, at, kind.magic_bytes()))
            ==> match table_of(chunk_at(stream, at)->Ok_0.1) {
            Err(e) => table_at(stream, at, kind) == Err::<TableView, CpkReaderError>(
                CpkReaderError::Table(e),
            ),
            Ok(t) => table_at(stream, at, kind) == Ok::<TableView, CpkReaderError>(t),
        },
{
    if chunk_at(stream, at) is Ok {
        let front = stream.subrange(at, at + 4);
        let magic = [front[0], front[1], front[2], front[3]];
        assert(magic@ =~= front);
        law_chunk_magic_roundtrip(kind, magic);
        assert(kind.magic_bytes().len() == 4);
        assert(chunk_at(stream, at)->Ok_0.0 == chunk_kind(front));
    }
}

/// An archive is read only where a header with a row stands in front; its index by
/// name, or where it has none its index by ID, stands where the header tells.
pub proof fn law_archives_without_their_parts_are_refused(
    stream: Seq<u8>,
    start: int,
    m: CpkMetadata,
)
    requires
        0 <= start,
    ensures
        header_at(stream, start) is Ok ==> stands_at(
            stream,
            start,
            seq!['C' as u8, 'P' as u8, 'K' as u8, ' ' as u8],
        ) && table_at(stream, start, CpkChunkKind::Cpk)->Ok_0.rows.len() > 0,
        (table_at(stream, start, CpkChunkKind::Cpk) matches Ok(t) && t.rows.len() == 0)
            ==> header_at(stream, start) == Err::<CpkMetadata, CpkReaderError>(
            CpkReaderError::InvalidHeaderChunk,
        ),
        listing(stream, start, m) is Ok && m.toc_offset != 0 ==> stands_at(
            stream,
            start + m.toc_offset,
            seq!['T' as u8, 'O' as u8, 'C' as u8, ' ' as u8],
        ),
        listing(stream, start, m) is Ok && m.toc_offset == 0 ==> m.itoc_offset != 0 && stands_at(
            stream,
            start + m.itoc_offset,
            seq!['I' as u8, 'T' as u8, 'O' as u8, 'C' as u8],
        ),
        m.toc_offset == 0 && m.itoc_offset == 0 ==> listing(stream, start, m) == Err::<
            Seq<CpkFileView>,
            CpkReaderError,
        >(CpkReaderError::MissingTocAndItoc),
{
    law_kinds_are_spelled(Seq::empty());
    law_chunks_of_other_kinds_are_refused(stream, start, CpkChunkKind::Cpk);
    law_chunks_of_other_kinds_are_refused(stream, start + m.toc_offset, CpkChunkKind::Toc);
    law_chunks_of_other_kinds_are_refused(stream, start + m.itoc_offset, CpkChunkKind::Itoc);
}

/// The files that an index by ID lists begin and end within 64 bits of offsets, and
/// one that lists others is refused.
pub proof fn law_files_beyond_all_offsets_are_refused(
    rows: Seq<ItocRow>,
    content_offset: int,
    alignment: int,
    k: int,
)
    requires
        alignment > 0,
        0 <= k < rows.len(),
    ensures
        itoc_files(rows, content_offset, alignment) matches Ok(files) ==> {
            &&& files[k].file_offset + files[k].file_size <= 0xffff_ffff_ffff_ffff
            &&& content_offset >= 0 ==> files[k].absolute_offset == content_offset
                + files[k].file_offset
        },
        itoc_files(rows, content_offset, alignment) matches Err(e) ==> e is MissingFileOffset,
{
    lemma_relative_grows(rows, alignment, k, k);
    lemma_relative_grows(rows, alignment, k, rows.len() as int);
    lemma_relative_grows(rows, alignment, k + 1, rows.len() as int);
    lemma_padded(rows[k].file_size as int, alignment);
    if offsets_fit(rows, content_offset, alignment) {
        assert(content_offset + relative_offset(rows, alignment, k) <= u64::MAX);
    }
}

proof fn lemma_relative_grows(rows: Seq<ItocRow>, alignment: int, few: int, many: int)
    requires
        0 <= few <= many <= rows.len(),
    ensures
        0 <= relative_offset(rows, alignment, few) <= relative_offset(rows, alignment, many),
    decreases many,
{
    if few < many {
        lemma_relative_grows(rows, alignment, few, many - 1);
        lemma_padded(rows[many - 1].file_size as int, alignment);
    } else if many > 0 {
        lemma_relative_grows(rows, alignment, few - 1, many - 1);
        lemma_padded(rows[many - 1].file_size as int, alignment);
    }
}

/// A pool is refused where a string of it is malformed UTF-8 in a table of UTF-8,
/// and where its last string does not end.
pub proof fn law_damaged_texts_are_refused(s: Seq<u8>, at: int)
    ensures
        string_begins(s, at) && zero_from(s, at) < s.len() && !valid_utf8(string_bytes(s, at))
            ==> pool_strings(s, StringEncoding::UTF8) is Err && pool_strings(
            s,
            StringEncoding::UTF8,
        )->Err_0 is InvalidUtf8,
        s.len() > 0 && s.last() != 0 ==> pool_strings(s, StringEncoding::UTF8) is Err
            && pool_strings(s, StringEncoding::ShiftJIS) is Err,
        pool_strings(s, StringEncoding::UTF8) matches Err(e) ==> e is InvalidUtf8 || (e
            is UnterminatedString && s.len() > 0 && s.last() != 0),
        pool_strings(s, StringEncoding::ShiftJIS) matches Err(e) ==> e is StringTooLong || (e
            is UnterminatedString && s.len() > 0 && s.last() != 0),
{
    if string_begins(s, at) && zero_from(s, at) < s.len() && !valid_utf8(string_bytes(s, at)) {
        assert(undecodable_at(s, at, StringEncoding::UTF8));
    }
}

proof fn lemma_ascii_until(bytes: Seq<u8>, at: int)
    requires
        0 <= at <= bytes.len(),
    ensures
        at <= ascii_until(bytes, at) <= bytes.len(),
        (forall|i: int| at <= i < bytes.len() ==> #[trigger] bytes[i] < 0x80) ==> ascii_until(
            bytes,
            at,
        ) == bytes.len(),
    decreases bytes.len() - at,
{
    if at < bytes.len() && bytes[at] < 0x80 {
        lemma_ascii_until(bytes, at + 1);
    }
}

/// ASCII is decoded without a buffer, and no bytes take one of more than four
/// times their count.
pub proof fn law_texts_of_a_pool_have_room(bytes: Seq<u8>)
    ensures
        (forall|i: int| 0 <= i < bytes.len() ==> #[trigger] bytes[i] < 0x80) ==> decode_buffer(
            bytes,
        ) == 0,
        0 <= decode_buffer(bytes) <= 4 * bytes.len(),
{
    lemma_ascii_until(bytes, 0);
    if utf8_mark().is_prefix_of(bytes) {
        assert(bytes[0] == utf8_mark()[0]);
    }
}

/// The row lacks what the error tells: its name, its size, a size of 32 bits or
/// its place.
pub open spec fn row_lacks(t: TableView, row: int, e: CpkReaderError) -> bool {
    match e {
        CpkReaderError::MissingFileName => match t.value_named(row, "FileName"@) {
            Some(RowValue::String(at)) => at == 0 || !t.strings.contains_key(at as int),
            _ => true,
        },
        CpkReaderError::MissingFileSize => t.number_named(row, "FileSize"@) is None,
        CpkReaderError::FileTooLarge(size) => size > 0xffff_ffff && (t.number_named(
            row,
            "FileSize"@,
        ) == Some(size) || t.number_named(row, "ExtractSize"@) == Some(size)),
        CpkReaderError::MissingFileOffset => match t.number_named(row, "FileOffset"@) {
            Some(offset) => offset + 0x800 > 0xffff_ffff_ffff_ffff,
            None => true,
        },
        _ => false,
    }
}

/// A TOC that is refused lacks the column that is told, or has a row without what
/// is told.
pub proof fn law_refused_tocs_lack_what_is_told(t: TableView)
    ensures
        toc_files(t) matches Err(e) ==> match e {
            CpkReaderError::InvalidTocColumn(name) => t.index_of(name@) is None && (name@
                == "FileName"@ || name@ == "FileSize"@ || name@ == "FileOffset"@),
            _ => exists|row: int| 0 <= row < t.rows.len() && #[trigger] row_lacks(t, row, e),
        },
{
    if t.index_of("FileName"@) is Some && t.index_of("FileSize"@) is Some && t.index_of(
        "FileOffset"@,
    ) is Some {
        lemma_refused_row(t, t.rows.len());
        if toc_files(t) is Err {
            let e = toc_files(t)->Err_0;
            let row = choose|row: int|
                0 <= row < t.rows.len() && #[trigger] toc_file(t, row) == Err::<
                    CpkFileView,
                    CpkReaderError,
                >(e);
            assert(row_lacks(t, row, e));
        }
    }
}

proof fn lemma_refused_row(t: TableView, count: nat)
    requires
        t.index_of("FileName"@) is Some,
        t.index_of("FileSize"@) is Some,
        t.index_of("FileOffset"@) is Some,
    ensures
        toc_rows(t, count) matches Err(e) ==> exists|row: int|
            0 <= row < count && #[trigger] toc_file(t, row) == Err::<CpkFileView, CpkReaderError>(e),
    decreases count,
{
    if count > 0 {
        lemma_refused_row(t, (count - 1) as nat);
        if toc_rows(t, (count - 1) as nat) is Ok && toc_rows(t, count) is Err {
            assert(toc_file(t, count - 1) is Err);
        }
    }
}

proof fn lemma_id_problem(files: Seq<InputView>, from: int)
    requires
        0 <= from,
    ensures
        id_problem(files, from) matches Some(e) ==> match e {
            WriterErrorView::ItocIdTooLarge(v) => v > 0xffff && exists|i: int|
                0 <= i < files.len() && (#[trigger] files[i]).id == v,
            WriterErrorView::DuplicateItocId(v) => exists|i: int, j: int|
                0 <= i < j < files.len() && (#[trigger] files[i]).id == v && (#[trigger] files[j]).id
                    == v,
            _ => false,
        },
    decreases files.len() - from,
{
    if from < files.len() {
        lemma_id_problem(files, from + 1);
    }
}

/// A job that is refused has the fault that is told: the alignment, the count, the
/// ID, the offset or the size is the one that cannot be had.
pub proof fn law_refused_jobs_have_what_is_told(job: Job)
    ensures
        job.problem() matches Some(e) ==> match e {
            WriterErrorView::InvalidAlignment(v) => v == job.alignment,
            WriterErrorView::EmptyInput => job.files.len() == 0,
            WriterErrorView::TooManyFiles(v) => job.files.len() > 0xffff_ffff && (job.files.len()
                <= usize::MAX ==> v == job.files.len()),
            WriterErrorView::ItocIdTooLarge(v) => v > 0xffff && exists|i: int|
                0 <= i < job.files.len() && (#[trigger] job.files[i]).id == v,
            WriterErrorView::DuplicateItocId(v) => exists|i: int, j: int|
                0 <= i < j < job.files.len() && (#[trigger] job.files[i]).id == v && (
                #[trigger] job.files[j]).id == v,
            WriterErrorView::ItocContentOffsetTooLarge(v) => job.content_offset() > 0xffff_ffff
                && (job.content_offset() <= u64::MAX ==> v == job.content_offset()),
            WriterErrorView::HeaderTooLarge(v) => job.header().total() + 0x10 > 0x7fa && (
            job.header().total() + 0x10 <= usize::MAX ==> v == job.header().total() + 0x10),
            WriterErrorView::ArithmeticOverflow => true,
            _ => false,
        },
{
    lemma_id_problem(job.files, 0);
}

/// A file that cannot be packed is told with its own path and sizes, bytes that
/// cannot be reused with the path of the archive that they were to come from.
pub proof fn law_refused_files_are_told_with_their_sizes<E: FileDecryptor>(
    file: InputView,
    source: Seq<u8>,
    p5r: bool,
    available: bool,
)
    requires
        source.len() <= u64::MAX,
    ensures
        packed::<E>(file, source, p5r, available) matches Err(e) ==> match e {
            WriterErrorView::UnsupportedP5rEncryption => p5r && !available && file.user_string
                == "CRI_CFATTR:ENCRYPT"@,
            WriterErrorView::InvalidRawPayload(path) => file.raw_payload matches Some(raw) && path
                == raw.archive_path && (raw.size != file.size || raw.absolute_offset + raw.size
                > source.len()),
            WriterErrorView::PayloadSizeChanged { path, expected, wrote } => file.raw_payload
                is None && path == file.source_path && expected == file.size && (!p5r
                || file.user_string != "CRI_CFATTR:ENCRYPT"@ ==> wrote == source.len() && wrote
                != expected),
            _ => false,
        },
{
}

} // verus!
