//! A written archive reads back as what it was made of.

use vstd::prelude::*;

use crate::cpk::file::{effective_extract_size, CpkFileView};
use crate::cpk::header::{
    chunk_at, law_chunk_magic_roundtrip, table_of, ChunkError, CpkChunkKind, TableView,
    CPK_CHUNK_HEADER_SIZE, CPK_HEADER_AREA,
};
use crate::cpk::index::{
    high_model, low_model, chunk, flag16, header_columns, header_model, header_row, id_model,
    id_row, is_low, lemma_chunk_len, toc_model, toc_row, width_group, HeaderFields,
};
use crate::cpk::input::{InputView, ProfileView};
use crate::cpk::layout::{
    id_problem, id_ranks, lemma_covers_injective, lemma_cursor_monotonic, lemma_cursor_step,
    lemma_front, lemma_front_bounds, lemma_offset_at, lemma_order_covers, lemma_position,
    copyright_mark, lemma_toc_total, lemma_total_bounds, padded, Job, COPYRIGHT_MARKER_OFFSET,
    ENGINE_INDEX_BASE,
};
use crate::cpk::reader::{
    all_itoc_rows, field, header_at, id_name, ids_repeat, itoc_file, itoc_files, itoc_listing,
    itoc_row, itoc_rows, listing, metadata_of, expanded, extracted, packed_bytes, relative_offset, row_ranks,
    rows_by_id, table_at, text_at, toc_file, toc_listing, toc_rows, CpkMetadata, CpkReaderError,
    ItocRow,
};
use crate::cpk::compress::FileDecompressor;
use crate::cpk::encrypt::data::FileDecryptor;
use crate::cpk::utf::{Cell, TableModel};
use crate::cpk::writer::{
    action_for, lemma_payloads_match, packed, payloads_of, written, PayloadAction,
};
use crate::cpk::utf_laws::{
    law_table_roundtrip, lemma_header_read, lemma_sections, reads_as, table_reads_as,
};
use crate::utils::bytes::{
    group_stored_widths, le64, lemma_le64_read, lemma_stands_within, stands_at,
};
use crate::utils::text::{before_nul, lemma_before_nul, no_nul};
use crate::utils::sort::{comes_before, covers, lemma_lex_single, lemma_order_of, order_of};
use crate::utils::align::lemma_aligned_shift;

verus! {

broadcast use group_stored_widths;

/// A plain chunk is read as its kind and its table.
pub proof fn lemma_chunk_read(stream: Seq<u8>, at: int, kind: CpkChunkKind, m: TableModel)
    requires
        m.fits(),
        kind !is Unknown,
        kind is Cpk ==> m.total() + CPK_CHUNK_HEADER_SIZE <= CPK_HEADER_AREA,
        stands_at(stream, at, chunk(kind, m.bytes())),
    ensures
        chunk_at(stream, at) == Ok::<(CpkChunkKind, Seq<u8>), ChunkError>((kind, m.bytes())),
{
    let table = m.bytes();
    let c = chunk(kind, table);
    lemma_sections(m);
    lemma_total_bounds(m);
    lemma_header_read(m);
    lemma_chunk_len(kind, table);
    law_chunk_magic_roundtrip(kind, [0u8, 0u8, 0u8, 0u8]);
    let n = table.len();
    assert(n == m.total());
    assert(kind.magic_bytes().len() == 4);
    assert(c.subrange(0, 4) =~= kind.magic_bytes());
    assert(c[4] == 0xff);
    assert(c.subrange(8, 16) =~= le64(n as u64));
    assert(c.subrange(16, 16 + n as int) =~= table);
    lemma_stands_within(stream, at, c, 0, kind.magic_bytes());
    lemma_stands_within(stream, at, c, 8, le64(n as u64));
    lemma_stands_within(stream, at, c, 16, table);
    lemma_le64_read(stream, at + 8, n as u64);
    assert(stream[at + 4] == stream.subrange(at, at + c.len())[4]);
}

/// The table of a plain chunk is read as what it was made of.
pub proof fn lemma_table_at(stream: Seq<u8>, at: int, kind: CpkChunkKind, m: TableModel)
    requires
        m.fits(),
        m.plain(),
        kind !is Unknown,
        kind is Cpk ==> m.total() + CPK_CHUNK_HEADER_SIZE <= CPK_HEADER_AREA,
        stands_at(stream, at, chunk(kind, m.bytes())),
    ensures
        table_at(stream, at, kind) matches Ok(t) && table_reads_as(t, m),
{
    lemma_chunk_read(stream, at, kind, m);
    law_table_roundtrip(m);
}

/// A column is found by its name if no column before it has the same name.
pub proof fn lemma_lookup(t: TableView, m: TableModel, name: Seq<char>, j: int)
    requires
        table_reads_as(t, m),
        0 <= j < m.columns.len(),
        m.columns[j].name == name,
        forall|k: int| 0 <= k < j ==> (#[trigger] m.columns[k]).name != name,
    ensures
        t.index_of(name) == Some(j),
{
    assert(t.named(j, m.columns[j].name));
    lemma_lookup_from(t, m, name, 0, j);
}

proof fn lemma_lookup_from(t: TableView, m: TableModel, name: Seq<char>, from: int, j: int)
    requires
        table_reads_as(t, m),
        0 <= from <= j < m.columns.len(),
        t.named(j, name),
        forall|k: int| 0 <= k < j ==> (#[trigger] m.columns[k]).name != name,
    ensures
        t.index_from(name, from) == Some(j),
    decreases j - from,
{
    if from < j {
        assert(t.named(from, m.columns[from].name));
        assert(m.columns[from].name != name);
        lemma_lookup_from(t, m, name, from + 1, j);
    }
}

/// A name that no column has is not found.
pub proof fn lemma_lookup_absent(t: TableView, m: TableModel, name: Seq<char>, from: int)
    requires
        table_reads_as(t, m),
        0 <= from <= m.columns.len(),
        forall|k: int| 0 <= k < m.columns.len() ==> (#[trigger] m.columns[k]).name != name,
    ensures
        t.index_from(name, from) is None,
    decreases m.columns.len() - from,
{
    if from < m.columns.len() {
        assert(t.named(from, m.columns[from].name));
        assert(m.columns[from].name != name);
        lemma_lookup_absent(t, m, name, from + 1);
    }
}

/// The number stored in a cell.
pub open spec fn cell_number(cell: Cell) -> u64 {
    match cell {
        Cell::UInt16(v) => v as u64,
        Cell::UInt32(v) => v as u64,
        Cell::UInt64(v) => v,
        _ => 0,
    }
}

/// A header field is read as the number in its column.
proof fn lemma_field(t: TableView, f: HeaderFields, p: ProfileView, name: Seq<char>, j: int)
    requires
        table_reads_as(t, header_model(f, p)),
        0 <= j < header_columns().len(),
        header_columns()[j].name == name,
        forall|k: int| 0 <= k < j ==> (#[trigger] header_columns()[k]).name != name,
        !(header_row(f, p)[j] is Text) && !(header_row(f, p)[j] is Blob),
    ensures
        field(t, name) == cell_number(header_row(f, p)[j]),
{
    let m = header_model(f, p);
    assert forall|k: int| 0 <= k < j implies (#[trigger] m.columns[k]).name != name by {
        assert(m.columns[k] == header_columns()[k]);
    }
    lemma_lookup(t, m, name, j);
    assert(reads_as(t, 0, j, m.rows[0][j]));
}

/// What the header of an archive tells when it is read.
pub open spec fn told(f: HeaderFields, p: ProfileView) -> CpkMetadata {
    CpkMetadata {
        file_size: f.archive_size,
        content_offset: f.content_offset,
        content_size: f.content_size,
        toc_offset: f.toc_offset,
        toc_size: f.toc_size,
        itoc_offset: f.itoc_offset,
        itoc_size: f.itoc_size,
        etoc_offset: 0,
        etoc_size: 0,
        gtoc_offset: 0,
        gtoc_size: 0,
        version: p.version,
        revision: p.revision,
        align: f.alignment,
        sorted: false,
        eid: flag16(p.index_mode.by_id() && p.direct_itoc),
        files: f.file_count,
        cpk_mode: p.index_mode.number(),
        enable_file_name: p.index_mode.by_name(),
        update_date_time: p.update_date_time,
        codec: 0,
        dpk_itoc: 0,
        enable_toc_crc: false,
        enable_file_crc: false,
    }
}

/// The header table tells what it was made from.
#[verifier::rlimit(60)]
proof fn lemma_metadata(t: TableView, f: HeaderFields, p: ProfileView)
    requires
        table_reads_as(t, header_model(f, p)),
    ensures
        metadata_of(t) == told(f, p),
{
    reveal_strlit("UpdateDateTime");
    reveal_strlit("FileSize");
    reveal_strlit("ContentOffset");
    reveal_strlit("ContentSize");
    reveal_strlit("TocOffset");
    reveal_strlit("TocSize");
    reveal_strlit("EtocOffset");
    reveal_strlit("EtocSize");
    reveal_strlit("ItocOffset");
    reveal_strlit("ItocSize");
    reveal_strlit("GtocOffset");
    reveal_strlit("GtocSize");
    reveal_strlit("Files");
    reveal_strlit("Version");
    reveal_strlit("Revision");
    reveal_strlit("Align");
    reveal_strlit("Sorted");
    reveal_strlit("EID");
    reveal_strlit("EnableFileName");
    reveal_strlit("CpkMode");
    reveal_strlit("Tvers");
    reveal_strlit("Comment");
    reveal_strlit("Codec");
    reveal_strlit("DpkItoc");
    reveal_strlit("EnableTocCrc");
    reveal_strlit("EnableFileCrc");
    assert("UpdateDateTime"@.len() == 14 && "UpdateDateTime"@[0] == 'U' && "UpdateDateTime"@[1] == 'p');
    assert("FileSize"@.len() == 8 && "FileSize"@[0] == 'F' && "FileSize"@[1] == 'i');
    assert("ContentOffset"@.len() == 13 && "ContentOffset"@[0] == 'C' && "ContentOffset"@[1] == 'o');
    assert("ContentSize"@.len() == 11 && "ContentSize"@[0] == 'C' && "ContentSize"@[1] == 'o');
    assert("TocOffset"@.len() == 9 && "TocOffset"@[0] == 'T' && "TocOffset"@[1] == 'o');
    assert("TocSize"@.len() == 7 && "TocSize"@[0] == 'T' && "TocSize"@[1] == 'o');
    assert("EtocOffset"@.len() == 10 && "EtocOffset"@[0] == 'E' && "EtocOffset"@[1] == 't');
    assert("EtocSize"@.len() == 8 && "EtocSize"@[0] == 'E' && "EtocSize"@[1] == 't');
    assert("ItocOffset"@.len() == 10 && "ItocOffset"@[0] == 'I' && "ItocOffset"@[1] == 't');
    assert("ItocSize"@.len() == 8 && "ItocSize"@[0] == 'I' && "ItocSize"@[1] == 't');
    assert("GtocOffset"@.len() == 10 && "GtocOffset"@[0] == 'G' && "GtocOffset"@[1] == 't');
    assert("GtocSize"@.len() == 8 && "GtocSize"@[0] == 'G' && "GtocSize"@[1] == 't');
    assert("Files"@.len() == 5 && "Files"@[0] == 'F' && "Files"@[1] == 'i');
    assert("Version"@.len() == 7 && "Version"@[0] == 'V' && "Version"@[1] == 'e');
    assert("Revision"@.len() == 8 && "Revision"@[0] == 'R' && "Revision"@[1] == 'e');
    assert("Align"@.len() == 5 && "Align"@[0] == 'A' && "Align"@[1] == 'l');
    assert("Sorted"@.len() == 6 && "Sorted"@[0] == 'S' && "Sorted"@[1] == 'o');
    assert("EID"@.len() == 3 && "EID"@[0] == 'E' && "EID"@[1] == 'I');
    assert("EnableFileName"@.len() == 14 && "EnableFileName"@[0] == 'E' && "EnableFileName"@[1] == 'n');
    assert("CpkMode"@.len() == 7 && "CpkMode"@[0] == 'C' && "CpkMode"@[1] == 'p');
    assert("Tvers"@.len() == 5 && "Tvers"@[0] == 'T' && "Tvers"@[1] == 'v');
    assert("Comment"@.len() == 7 && "Comment"@[0] == 'C' && "Comment"@[1] == 'o');
    assert("Codec"@.len() == 5 && "Codec"@[0] == 'C' && "Codec"@[1] == 'o');
    assert("DpkItoc"@.len() == 7 && "DpkItoc"@[0] == 'D' && "DpkItoc"@[1] == 'p');
    assert("EnableTocCrc"@.len() == 12 && "EnableTocCrc"@[0] == 'E' && "EnableTocCrc"@[1] == 'n');
    assert("EnableFileCrc"@.len() == 13 && "EnableFileCrc"@[0] == 'E' && "EnableFileCrc"@[1] == 'n');
    lemma_field(t, f, p, "UpdateDateTime"@, 0);
    lemma_field(t, f, p, "FileSize"@, 1);
    lemma_field(t, f, p, "ContentOffset"@, 2);
    lemma_field(t, f, p, "ContentSize"@, 3);
    lemma_field(t, f, p, "TocOffset"@, 4);
    lemma_field(t, f, p, "TocSize"@, 5);
    lemma_field(t, f, p, "EtocOffset"@, 6);
    lemma_field(t, f, p, "EtocSize"@, 7);
    lemma_field(t, f, p, "ItocOffset"@, 8);
    lemma_field(t, f, p, "ItocSize"@, 9);
    lemma_field(t, f, p, "GtocOffset"@, 10);
    lemma_field(t, f, p, "GtocSize"@, 11);
    lemma_field(t, f, p, "Files"@, 12);
    lemma_field(t, f, p, "Version"@, 13);
    lemma_field(t, f, p, "Revision"@, 14);
    lemma_field(t, f, p, "Align"@, 15);
    lemma_field(t, f, p, "Sorted"@, 16);
    lemma_field(t, f, p, "EID"@, 17);
    lemma_field(t, f, p, "EnableFileName"@, 18);
    lemma_field(t, f, p, "CpkMode"@, 19);
    lemma_field(t, f, p, "Codec"@, 22);
    lemma_field(t, f, p, "DpkItoc"@, 23);
    lemma_field(t, f, p, "EnableTocCrc"@, 24);
    lemma_field(t, f, p, "EnableFileCrc"@, 25);
}

/// Bytes of the archive up to the end of the first `k` files.
pub proof fn lemma_upto_len(job: Job, payloads: Seq<Seq<u8>>, k: int)
    requires
        job.problem() is None,
        job.payloads_match(payloads),
        0 <= k <= job.files.len(),
    ensures
        job.upto(payloads, k).len() <= job.cursor(k),
        k > 0 ==> job.upto(payloads, k).len() == job.cursor(k - 1)
            + job.files[job.order()[k - 1]].size,
    decreases k,
{
    lemma_front(job);
    if k > 0 {
        lemma_upto_len(job, payloads, k - 1);
        lemma_offset_at(job, k - 1);
        lemma_cursor_step(job, k - 1);
        assert(payloads[job.order()[k - 1]].len() == job.files[job.order()[k - 1]].size);
    }
}

/// A piece in front of zeros and more bytes stays where it is.
proof fn lemma_stands_padded(s: Seq<u8>, at: int, more: Seq<u8>, offset: int, piece: Seq<u8>)
    requires
        stands_at(s, offset, piece),
    ensures
        stands_at(padded(s, at) + more, offset, piece),
        stands_at(padded(s, at), offset, piece),
{
    assert((padded(s, at) + more).subrange(offset, offset + piece.len()) =~= s.subrange(
        offset,
        offset + piece.len(),
    ));
    assert(padded(s, at).subrange(offset, offset + piece.len()) =~= s.subrange(
        offset,
        offset + piece.len(),
    ));
}

/// The front of the archive stays where it is as files are added.
proof fn lemma_stands_upto(
    job: Job,
    payloads: Seq<Seq<u8>>,
    j: int,
    k: int,
    offset: int,
    piece: Seq<u8>,
)
    requires
        0 <= j <= k,
        stands_at(job.upto(payloads, j), offset, piece),
    ensures
        stands_at(job.upto(payloads, k), offset, piece),
    decreases k - j,
{
    if j < k {
        lemma_stands_upto(job, payloads, j, k - 1, offset, piece);
        lemma_stands_padded(
            job.upto(payloads, k - 1),
            job.cursor(k - 1),
            payloads[job.order()[k - 1]],
            offset,
            piece,
        );
    }
}

/// What stands in front of the files stands in the archive.
pub proof fn lemma_stands_archive(
    job: Job,
    payloads: Seq<Seq<u8>>,
    k: int,
    offset: int,
    piece: Seq<u8>,
)
    requires
        0 <= k <= job.files.len(),
        stands_at(job.upto(payloads, k), offset, piece),
    ensures
        stands_at(job.archive(payloads), offset, piece),
{
    lemma_stands_upto(job, payloads, k, job.files.len() as int, offset, piece);
    lemma_stands_padded(
        job.upto(payloads, job.files.len() as int),
        job.archive_size(),
        Seq::empty(),
        offset,
        piece,
    );
}

/// The archive has the size that it tells, and every packed file stands at the
/// offset of its position.
pub proof fn law_payloads_stand_at_their_offsets(job: Job, payloads: Seq<Seq<u8>>, i: int)
    requires
        job.problem() is None,
        job.payloads_match(payloads),
        0 <= i < job.files.len(),
    ensures
        job.archive(payloads).len() == job.archive_size(),
        stands_at(job.archive(payloads), job.offset(i), payloads[i]),
{
    lemma_upto_len(job, payloads, job.files.len() as int);
    let k = lemma_position(job, i);
    lemma_upto_len(job, payloads, k);
    let s = padded(job.upto(payloads, k), job.cursor(k));
    let next = job.upto(payloads, k + 1);
    assert(s.len() == job.cursor(k));
    assert(next == s + payloads[i]);
    assert(next.subrange(job.cursor(k), job.cursor(k) + payloads[i].len()) =~= payloads[i]);
    assert(job.cursor(k) >= 0) by {
        lemma_front(job);
        lemma_cursor_monotonic(job, 0, k);
    }
    lemma_stands_archive(job, payloads, k + 1, job.cursor(k), payloads[i]);
}

/// The header and the indexes stand where the header tells.
pub proof fn law_indexes_stand_at_their_offsets(job: Job, payloads: Seq<Seq<u8>>)
    requires
        job.problem() is None,
        job.payloads_match(payloads),
    ensures
        stands_at(job.archive(payloads), 0, chunk(CpkChunkKind::Cpk, job.header().bytes())),
        job.by_name() ==> stands_at(
            job.archive(payloads),
            job.toc_offset(),
            chunk(CpkChunkKind::Toc, job.toc().bytes()),
        ),
        job.by_id() ==> stands_at(
            job.archive(payloads),
            job.itoc_offset(),
            chunk(CpkChunkKind::Itoc, job.itoc().bytes()),
        ),
{
    lemma_front(job);
    let header = chunk(CpkChunkKind::Cpk, job.header().bytes());
    let toc = chunk(CpkChunkKind::Toc, job.toc().bytes());
    let itoc = chunk(CpkChunkKind::Itoc, job.itoc().bytes());
    assert(header.subrange(0, header.len() as int) =~= header);
    lemma_stands_padded(
        header,
        COPYRIGHT_MARKER_OFFSET as int,
        copyright_mark(),
        0,
        header,
    );
    assert(stands_at(job.head(), 0, header));
    if job.by_name() {
        lemma_stands_padded(job.head(), job.toc_offset(), toc, 0, header);
        let s = padded(job.head(), job.toc_offset());
        assert((s + toc).subrange(s.len() as int, (s + toc).len() as int) =~= toc);
        assert(stands_at(job.head_and_toc(), job.toc_offset(), toc));
    }
    if job.by_id() {
        lemma_stands_padded(job.head_and_toc(), job.itoc_offset(), itoc, 0, header);
        if job.by_name() {
            lemma_stands_padded(
                job.head_and_toc(),
                job.itoc_offset(),
                itoc,
                job.toc_offset(),
                toc,
            );
        }
        let s = padded(job.head_and_toc(), job.itoc_offset());
        assert((s + itoc).subrange(s.len() as int, (s + itoc).len() as int) =~= itoc);
        assert(stands_at(job.head_and_indexes(), job.itoc_offset(), itoc));
        lemma_stands_padded(
            job.head_and_indexes(),
            job.content_offset(),
            Seq::empty(),
            job.itoc_offset(),
            itoc,
        );
        lemma_stands_archive(job, payloads, 0, job.itoc_offset(), itoc);
    }
    lemma_stands_padded(job.head_and_indexes(), job.content_offset(), Seq::empty(), 0, header);
    lemma_stands_archive(job, payloads, 0, 0, header);
    if job.by_name() {
        lemma_stands_padded(
            job.head_and_indexes(),
            job.content_offset(),
            Seq::empty(),
            job.toc_offset(),
            toc,
        );
        lemma_stands_archive(job, payloads, 0, job.toc_offset(), toc);
    }
}

/// Every file stands at a multiple of the alignment, behind the indexes and
/// inside the archive, which ends at such a multiple too.
pub proof fn law_files_are_aligned(job: Job, i: int)
    requires
        job.problem() is None,
        0 <= i < job.files.len(),
    ensures
        job.offset(i) % job.step() == 0,
        job.content_offset() <= job.offset(i),
        job.offset(i) + job.files[i].size <= job.archive_size(),
        job.archive_size() % job.step() == 0,
{
    lemma_front(job);
    let k = lemma_position(job, i);
    lemma_cursor_step(job, k);
    lemma_cursor_step(job, job.files.len() - 1);
    lemma_cursor_monotonic(job, 0, k);
    lemma_cursor_monotonic(job, k + 1, job.files.len() as int);
}

/// No two files overlap.
pub proof fn law_files_are_disjoint(job: Job, i: int, j: int)
    requires
        job.problem() is None,
        0 <= i < job.files.len(),
        0 <= j < job.files.len(),
        i != j,
    ensures
        job.offset(i) + job.files[i].size <= job.offset(j) || job.offset(j) + job.files[j].size
            <= job.offset(i),
{
    lemma_front(job);
    let k = lemma_position(job, i);
    let l = lemma_position(job, j);
    lemma_cursor_step(job, k);
    lemma_cursor_step(job, l);
    if k < l {
        lemma_cursor_monotonic(job, k + 1, l);
    } else {
        lemma_cursor_monotonic(job, l + 1, k);
    }
}

/// The names of the header's columns hold no NUL.
pub proof fn lemma_header_plain(f: HeaderFields, p: ProfileView)
    ensures
        header_model(f, p).plain(),
{
    let m = header_model(f, p);
    reveal_strlit("UpdateDateTime");
    reveal_strlit("FileSize");
    reveal_strlit("ContentOffset");
    reveal_strlit("ContentSize");
    reveal_strlit("TocOffset");
    reveal_strlit("TocSize");
    reveal_strlit("EtocOffset");
    reveal_strlit("EtocSize");
    reveal_strlit("ItocOffset");
    reveal_strlit("ItocSize");
    reveal_strlit("GtocOffset");
    reveal_strlit("GtocSize");
    reveal_strlit("Files");
    reveal_strlit("Version");
    reveal_strlit("Revision");
    reveal_strlit("Align");
    reveal_strlit("Sorted");
    reveal_strlit("EID");
    reveal_strlit("EnableFileName");
    reveal_strlit("CpkMode");
    reveal_strlit("Tvers");
    reveal_strlit("Comment");
    reveal_strlit("Codec");
    reveal_strlit("DpkItoc");
    reveal_strlit("EnableTocCrc");
    reveal_strlit("EnableFileCrc");
    assert(no_nul("UpdateDateTime"@));
    assert(no_nul("FileSize"@));
    assert(no_nul("ContentOffset"@));
    assert(no_nul("ContentSize"@));
    assert(no_nul("TocOffset"@));
    assert(no_nul("TocSize"@));
    assert(no_nul("EtocOffset"@));
    assert(no_nul("EtocSize"@));
    assert(no_nul("ItocOffset"@));
    assert(no_nul("ItocSize"@));
    assert(no_nul("GtocOffset"@));
    assert(no_nul("GtocSize"@));
    assert(no_nul("Files"@));
    assert(no_nul("Version"@));
    assert(no_nul("Revision"@));
    assert(no_nul("Align"@));
    assert(no_nul("Sorted"@));
    assert(no_nul("EID"@));
    assert(no_nul("EnableFileName"@));
    assert(no_nul("CpkMode"@));
    assert(no_nul("Tvers"@));
    assert(no_nul("Comment"@));
    assert(no_nul("Codec"@));
    assert(no_nul("DpkItoc"@));
    assert(no_nul("EnableTocCrc"@));
    assert(no_nul("EnableFileCrc"@));
    assert forall|j: int| 0 <= j < m.columns.len() implies no_nul(
        #[trigger] m.columns[j].name,
    ) by {}
}

/// Files that are found by name have one. An empty name is stored as the null
/// reference, and read as missing.
pub open spec fn readable(job: Job) -> bool {
    job.by_name() ==> forall|i: int|
        0 <= i < job.files.len() ==> (#[trigger] job.files[i]).file_name.len() > 0
}

/// No text of the file holds a NUL. Other texts are stored as they are too, and
/// read up to their first NUL.
pub open spec fn plain_texts(file: InputView) -> bool {
    no_nul(file.directory) && no_nul(file.file_name) && no_nul(file.user_string)
}

/// What is read of an archive's header.
pub open spec fn metadata_told(job: Job) -> CpkMetadata {
    told(job.header_fields(), job.profile)
}

/// The header of a written archive is read as what was written, wherever in a
/// stream the archive stands.
pub proof fn law_header_reads_back(
    job: Job,
    payloads: Seq<Seq<u8>>,
    stream: Seq<u8>,
    start: int,
)
    requires
        job.problem() is None,
        job.payloads_match(payloads),
        stands_at(stream, start, job.archive(payloads)),
    ensures
        header_at(stream, start) == Ok::<CpkMetadata, CpkReaderError>(metadata_told(job)),
{
    let m = job.header();
    let c = chunk(CpkChunkKind::Cpk, m.bytes());
    law_indexes_stand_at_their_offsets(job, payloads);
    lemma_stands_within(stream, start, job.archive(payloads), 0, c);
    lemma_header_plain(job.header_fields(), job.profile);
    lemma_table_at(stream, start, CpkChunkKind::Cpk, m);
    let t = table_at(stream, start, CpkChunkKind::Cpk)->Ok_0;
    lemma_metadata(t, job.header_fields(), job.profile);
}

/// What is read of the file `i` in a TOC: its texts up to their first NUL.
pub open spec fn toc_entry(job: Job, i: int) -> CpkFileView {
    CpkFileView {
        directory: before_nul(job.files[i].directory),
        file_name: before_nul(job.files[i].file_name),
        file_offset: (job.offset(i) - ENGINE_INDEX_BASE) as u64,
        absolute_offset: job.offset(i) as u64,
        file_size: job.files[i].size,
        extract_size: effective_extract_size(job.files[i].size, job.files[i].extract_size),
        id: Some(job.files[i].id),
        user_string: before_nul(job.files[i].user_string),
        file_crc: None,
    }
}

/// The offset of a file lies between the base of the TOC and the end of 64 bits.
proof fn lemma_offset_range(job: Job, i: int)
    requires
        job.problem() is None,
        0 <= i < job.files.len(),
    ensures
        ENGINE_INDEX_BASE <= job.offset(i) <= u64::MAX,
        job.offset(i) + job.files[i].size <= job.archive_size() <= u64::MAX,
{
    lemma_front(job);
    let k = lemma_position(job, i);
    let n = job.files.len() as int;
    lemma_cursor_monotonic(job, 0, k);
    lemma_cursor_step(job, k);
    lemma_cursor_monotonic(job, k + 1, n);
    lemma_cursor_step(job, n - 1);
    assert(job.cursor(n - 1) + job.files[job.order()[n - 1]].size + job.step() - 1 <= u64::MAX);
}

/// The columns of a TOC are found where they stand.
proof fn lemma_toc_lookups(t: TableView, files: Seq<InputView>, offsets: Seq<u64>)
    requires
        table_reads_as(t, toc_model(files, offsets)),
    ensures
        t.index_of("DirName"@) == Some(0int),
        t.index_of("FileName"@) == Some(1int),
        t.index_of("FileSize"@) == Some(2int),
        t.index_of("ExtractSize"@) == Some(3int),
        t.index_of("FileOffset"@) == Some(4int),
        t.index_of("ID"@) == Some(5int),
        t.index_of("UserString"@) == Some(6int),
        t.index_of("FileCrc"@) is None,
{
    let m = toc_model(files, offsets);
    reveal_strlit("DirName");
    reveal_strlit("FileName");
    reveal_strlit("FileSize");
    reveal_strlit("ExtractSize");
    reveal_strlit("FileOffset");
    reveal_strlit("ID");
    reveal_strlit("UserString");
    reveal_strlit("FileCrc");
    assert("DirName"@.len() == 7 && "DirName"@[0] == 'D');
    assert("FileName"@.len() == 8 && "FileName"@[4] == 'N');
    assert("FileSize"@.len() == 8 && "FileSize"@[4] == 'S');
    assert("ExtractSize"@.len() == 11);
    assert("FileOffset"@.len() == 10 && "FileOffset"@[0] == 'F');
    assert("ID"@.len() == 2);
    assert("UserString"@.len() == 10 && "UserString"@[0] == 'U');
    assert("FileCrc"@.len() == 7 && "FileCrc"@[0] == 'F');
    lemma_lookup(t, m, "DirName"@, 0);
    lemma_lookup(t, m, "FileName"@, 1);
    lemma_lookup(t, m, "FileSize"@, 2);
    lemma_lookup(t, m, "ExtractSize"@, 3);
    lemma_lookup(t, m, "FileOffset"@, 4);
    lemma_lookup(t, m, "ID"@, 5);
    lemma_lookup(t, m, "UserString"@, 6);
    lemma_lookup_absent(t, m, "FileCrc"@, 0);
}

/// A stored text is read back up to its first NUL, an empty one as missing.
proof fn lemma_text_at(t: TableView, row: int, column: int, text: Seq<char>)
    requires
        reads_as(t, row, column, Cell::Text(text)),
    ensures
        text_at(t, row, column) == (if text.len() == 0 {
            None
        } else {
            Some(before_nul(text))
        }),
{
}

/// A row of a TOC is read as the file it was made from.
proof fn lemma_toc_row(t: TableView, job: Job, i: int)
    requires
        job.problem() is None,
        readable(job),
        job.by_name(),
        table_reads_as(t, job.toc()),
        0 <= i < job.files.len(),
    ensures
        toc_file(t, i) == Ok::<CpkFileView, CpkReaderError>(toc_entry(job, i)),
{
    let m = job.toc();
    let file = job.files[i];
    lemma_toc_lookups(t, job.files, job.toc_offsets());
    lemma_offset_range(job, i);
    assert(m.rows[i] == toc_row(file, job.toc_offsets()[i]));
    assert(reads_as(t, i, 0, m.rows[i][0]));
    assert(reads_as(t, i, 1, m.rows[i][1]));
    assert(reads_as(t, i, 2, m.rows[i][2]));
    assert(reads_as(t, i, 3, m.rows[i][3]));
    assert(reads_as(t, i, 4, m.rows[i][4]));
    assert(reads_as(t, i, 5, m.rows[i][5]));
    assert(reads_as(t, i, 6, m.rows[i][6]));
    lemma_text_at(t, i, 0, file.directory);
    lemma_text_at(t, i, 1, file.file_name);
    lemma_text_at(t, i, 6, file.user_string);
    let read = toc_file(t, i)->Ok_0;
    assert(read =~= toc_entry(job, i));
}

proof fn lemma_toc_all_rows(t: TableView, job: Job, count: nat)
    requires
        job.problem() is None,
        readable(job),
        job.by_name(),
        table_reads_as(t, job.toc()),
        count <= job.files.len(),
    ensures
        toc_rows(t, count) == Ok::<Seq<CpkFileView>, CpkReaderError>(
            Seq::new(count, |i: int| toc_entry(job, i)),
        ),
    decreases count,
{
    if count == 0 {
        assert(Seq::new(0, |i: int| toc_entry(job, i)) =~= Seq::empty());
    } else {
        lemma_toc_all_rows(t, job, (count - 1) as nat);
        lemma_toc_row(t, job, count - 1);
        assert(Seq::new((count - 1) as nat, |i: int| toc_entry(job, i)).push(
            toc_entry(job, count - 1),
        ) =~= Seq::new(count, |i: int| toc_entry(job, i)));
    }
}

pub proof fn lemma_toc_plain(files: Seq<InputView>, offsets: Seq<u64>)
    ensures
        toc_model(files, offsets).plain(),
{
    reveal_strlit("DirName");
    reveal_strlit("FileName");
    reveal_strlit("FileSize");
    reveal_strlit("ExtractSize");
    reveal_strlit("FileOffset");
    reveal_strlit("ID");
    reveal_strlit("UserString");
    assert(no_nul("DirName"@));
    assert(no_nul("FileName"@));
    assert(no_nul("FileSize"@));
    assert(no_nul("ExtractSize"@));
    assert(no_nul("FileOffset"@));
    assert(no_nul("ID"@));
    assert(no_nul("UserString"@));
}

/// The TOC of a written archive lists the files as they were given, each at its
/// offset.
pub proof fn law_toc_lists_the_files(
    job: Job,
    payloads: Seq<Seq<u8>>,
    stream: Seq<u8>,
    start: int,
)
    requires
        job.problem() is None,
        job.payloads_match(payloads),
        readable(job),
        job.by_name(),
        stands_at(stream, start, job.archive(payloads)),
        start + job.archive_size() <= u64::MAX,
    ensures
        toc_listing(stream, start, metadata_told(job)) == Ok::<Seq<CpkFileView>, CpkReaderError>(
            Seq::new(job.files.len(), |i: int| toc_entry(job, i)),
        ),
{
    let m = job.toc();
    let c = chunk(CpkChunkKind::Toc, m.bytes());
    law_indexes_stand_at_their_offsets(job, payloads);
    law_payloads_stand_at_their_offsets(job, payloads, 0);
    lemma_stands_within(stream, start, job.archive(payloads), job.toc_offset(), c);
    lemma_toc_plain(job.files, job.toc_offsets());
    lemma_toc_total(job.files, job.toc_offsets(), Seq::new(job.files.len(), |i: int| 0u64));
    let at = start + job.toc_offset();
    lemma_table_at(stream, at, CpkChunkKind::Toc, m);
    let t = table_at(stream, at, CpkChunkKind::Toc)->Ok_0;
    lemma_toc_lookups(t, job.files, job.toc_offsets());
    lemma_toc_all_rows(t, job, job.files.len());
    lemma_offset_range(job, 0);
}

/// What an ITOC tells of a file.
pub open spec fn row_of(file: InputView) -> ItocRow {
    ItocRow {
        id: file.id,
        file_size: file.size,
        extract_size: file.extract_size,
        file_crc: None,
    }
}

/// What an ITOC tells of the files with these indices.
pub open spec fn rows_for(files: Seq<InputView>, indices: Seq<int>) -> Seq<ItocRow> {
    Seq::new(indices.len(), |k: int| row_of(files[indices[k]]))
}

/// The columns of a table of IDs are found where they stand.
proof fn lemma_id_lookups(
    t: TableView,
    files: Seq<InputView>,
    indices: Seq<int>,
    low: bool,
    name: Seq<char>,
)
    requires
        table_reads_as(t, id_model(files, indices, low, name)),
    ensures
        t.index_of("ID"@) == Some(0int),
        t.index_of("FileSize"@) == Some(1int),
        t.index_of("ExtractSize"@) == Some(2int),
        t.index_of("FileCrc"@) is None,
{
    let m = id_model(files, indices, low, name);
    reveal_strlit("ID");
    reveal_strlit("FileSize");
    reveal_strlit("ExtractSize");
    reveal_strlit("FileCrc");
    assert("ID"@.len() == 2);
    assert("FileSize"@.len() == 8);
    assert("ExtractSize"@.len() == 11);
    assert("FileCrc"@.len() == 7);
    lemma_lookup(t, m, "ID"@, 0);
    lemma_lookup(t, m, "FileSize"@, 1);
    lemma_lookup(t, m, "ExtractSize"@, 2);
    lemma_lookup_absent(t, m, "FileCrc"@, 0);
}

/// The rows of a table of IDs are read as the files they were made from.
proof fn lemma_id_rows(
    t: TableView,
    files: Seq<InputView>,
    indices: Seq<int>,
    low: bool,
    name: Seq<char>,
    count: nat,
)
    requires
        table_reads_as(t, id_model(files, indices, low, name)),
        forall|k: int| 0 <= k < indices.len() ==> files[#[trigger] indices[k]].id <= u16::MAX,
        low ==> forall|k: int| 0 <= k < indices.len() ==> is_low(files[#[trigger] indices[k]]),
        count <= indices.len(),
    ensures
        itoc_rows(t, count) == Ok::<Seq<ItocRow>, CpkReaderError>(
            rows_for(files, indices).take(count as int),
        ),
    decreases count,
{
    let rows = rows_for(files, indices);
    if count == 0 {
        assert(rows.take(0) =~= Seq::empty());
    } else {
        let k = count - 1;
        let m = id_model(files, indices, low, name);
        lemma_id_rows(t, files, indices, low, name, k as nat);
        lemma_id_lookups(t, files, indices, low, name);
        let file = files[indices[k]];
        assert(m.rows[k] == id_row(file, low));
        assert(reads_as(t, k, 0, m.rows[k][0]));
        assert(reads_as(t, k, 1, m.rows[k][1]));
        assert(reads_as(t, k, 2, m.rows[k][2]));
        assert(itoc_row(t, k) == Ok::<ItocRow, CpkReaderError>(row_of(file)));
        assert(rows.take(k).push(row_of(file)) =~= rows.take(count as int));
    }
}

proof fn lemma_id_plain(files: Seq<InputView>, indices: Seq<int>, low: bool, name: Seq<char>)
    ensures
        id_model(files, indices, low, name).plain(),
{
    reveal_strlit("ID");
    reveal_strlit("FileSize");
    reveal_strlit("ExtractSize");
    assert(no_nul("ID"@));
    assert(no_nul("FileSize"@));
    assert(no_nul("ExtractSize"@));
}

/// IDs without a problem fit in 16 bits and differ.
proof fn lemma_ids_distinct(files: Seq<InputView>, from: int)
    requires
        0 <= from,
        id_problem(files, from) is None,
    ensures
        forall|i: int, j: int|
            0 <= i < j < files.len() && from <= j ==> (#[trigger] files[i]).id != (
            #[trigger] files[j]).id,
        forall|i: int| from <= i < files.len() ==> (#[trigger] files[i]).id <= u16::MAX,
    decreases files.len() - from,
{
    if from < files.len() {
        lemma_ids_distinct(files, from + 1);
    }
}

/// The IDs ascend strictly along these indices.
pub open spec fn ids_ascend(files: Seq<InputView>, indices: Seq<int>) -> bool {
    forall|a: int, b: int|
        0 <= a < b < indices.len() ==> files[#[trigger] indices[a]].id < files[
            #[trigger] indices[b]].id
}

/// Along the order of the files, IDs ascend strictly.
pub proof fn law_files_stand_by_ascending_id(job: Job)
    requires
        job.problem() is None,
        job.by_id(),
    ensures
        ids_ascend(job.files, job.order()),
{
    lemma_ids_distinct(job.files, 0);
    lemma_order_covers(job);
    lemma_covers_injective(job.order(), 0, job.files.len() as int);
    let order = job.order();
    let keys = id_ranks(job.files);
    assert forall|a: int, b: int| 0 <= a < b < order.len() implies job.files[
        #[trigger] order[a]].id < job.files[#[trigger] order[b]].id by {
        let (i, j) = (order[a], order[b]);
        assert(comes_before(keys, i, j));
        lemma_lex_single(job.files[i].id as int, job.files[j].id as int);
        assert(i != j);
        if i < j {
            assert(job.files[i].id != job.files[j].id);
        } else {
            assert(job.files[j].id != job.files[i].id);
        }
    }
}

/// A group of the order keeps the order, and holds what belongs to it.
proof fn lemma_width_group(files: Seq<InputView>, order: Seq<int>, low: bool)
    requires
        ids_ascend(files, order),
    ensures
        ids_ascend(files, width_group(files, order, low)),
        forall|i: int|
            #[trigger] width_group(files, order, low).contains(i) <==> order.contains(i) && is_low(
                files[i],
            ) == low,
    decreases order.len(),
{
    reveal(Seq::filter);
    let group = width_group(files, order, low);
    if order.len() == 0 {
        assert forall|i: int| #[trigger] group.contains(i) <==> order.contains(i) && is_low(
            files[i],
        ) == low by {}
    } else {
        let rest = order.drop_last();
        let last = order.last();
        let before = width_group(files, rest, low);
        assert forall|a: int, b: int| 0 <= a < b < rest.len() implies files[
            #[trigger] rest[a]].id < files[#[trigger] rest[b]].id by {
            assert(files[order[a]].id < files[order[b]].id);
        }
        lemma_width_group(files, rest, low);
        assert forall|i: int| #[trigger] group.contains(i) <==> order.contains(i) && is_low(
            files[i],
        ) == low by {
            assert(before.contains(i) <==> rest.contains(i) && is_low(files[i]) == low);
            lemma_contains_last(order, i);
            if is_low(files[last]) == low {
                assert(group =~= before.push(last));
                lemma_contains_last(group, i);
                assert(group.drop_last() =~= before);
            }
        }
        if is_low(files[last]) == low {
            assert(group =~= before.push(last));
            assert forall|a: int, b: int| 0 <= a < b < group.len() implies files[
                #[trigger] group[a]].id < files[#[trigger] group[b]].id by {
                if b < before.len() {
                    assert(files[before[a]].id < files[before[b]].id);
                } else {
                    assert(before.contains(before[a]));
                    assert(rest.contains(before[a]));
                    let c = choose|c: int| 0 <= c < rest.len() && rest[c] == before[a];
                    assert(files[order[c]].id < files[order[order.len() - 1]].id);
                }
            }
        }
    }
}

proof fn lemma_contains_last(s: Seq<int>, i: int)
    requires
        s.len() > 0,
    ensures
        s.contains(i) <==> s.drop_last().contains(i) || s.last() == i,
{
    let rest = s.drop_last();
    if s.contains(i) {
        let a = choose|a: int| 0 <= a < s.len() && s[a] == i;
        if a < rest.len() {
            assert(rest[a] == i);
        }
    }
    if rest.contains(i) {
        let a = choose|a: int| 0 <= a < rest.len() && rest[a] == i;
        assert(s[a] == i);
    }
    if s.last() == i {
        assert(s[s.len() - 1] == i);
    }
}

/// The IDs of the rows ascend strictly.
spec fn rows_ascend(rows: Seq<ItocRow>) -> bool {
    forall|a: int, b: int|
        0 <= a < b < rows.len() ==> (#[trigger] rows[a]).id < (#[trigger] rows[b]).id
}

/// Two lists of rows with ascending IDs and the same rows are equal.
proof fn lemma_rows_unique(a: Seq<ItocRow>, b: Seq<ItocRow>)
    requires
        rows_ascend(a),
        rows_ascend(b),
        forall|x: ItocRow| #[trigger] a.contains(x) <==> b.contains(x),
    ensures
        a == b,
    decreases a.len(),
{
    if a.len() == 0 {
        if b.len() > 0 {
            assert(b.contains(b[0]));
            assert(a.contains(b[0]));
        }
        assert(a =~= b);
    } else {
        assert(a.contains(a[0]));
        assert(b.contains(a[0]));
        let i = choose|i: int| 0 <= i < b.len() && b[i] == a[0];
        assert(b.contains(b[0]));
        assert(a.contains(b[0]));
        let j = choose|j: int| 0 <= j < a.len() && a[j] == b[0];
        if i > 0 && j > 0 {
            assert(b[0].id < b[i].id);
            assert(a[0].id < a[j].id);
        }
        assert(a[0] == b[0]);
        let p = a.drop_first();
        let q = b.drop_first();
        assert(rows_ascend(p)) by {
            assert forall|k: int, l: int| 0 <= k < l < p.len() implies (#[trigger] p[k]).id < (
            #[trigger] p[l]).id by {
                assert(a[k + 1].id < a[l + 1].id);
            }
        }
        assert(rows_ascend(q)) by {
            assert forall|k: int, l: int| 0 <= k < l < q.len() implies (#[trigger] q[k]).id < (
            #[trigger] q[l]).id by {
                assert(b[k + 1].id < b[l + 1].id);
            }
        }
        assert forall|x: ItocRow| #[trigger] p.contains(x) <==> q.contains(x) by {
            lemma_rows_tail(a, x);
            lemma_rows_tail(b, x);
            assert(a.contains(x) <==> b.contains(x));
        }
        lemma_rows_unique(p, q);
        assert(a =~= seq![a[0]] + p);
        assert(b =~= seq![b[0]] + q);
    }
}

proof fn lemma_rows_tail(a: Seq<ItocRow>, x: ItocRow)
    requires
        a.len() > 0,
        rows_ascend(a),
    ensures
        a.drop_first().contains(x) <==> (a.contains(x) && x != a[0]),
{
    let p = a.drop_first();
    if p.contains(x) {
        let i = choose|i: int| 0 <= i < p.len() && p[i] == x;
        assert(a[i + 1] == x);
        assert(a[0].id < a[i + 1].id);
    }
    if a.contains(x) && x != a[0] {
        let i = choose|i: int| 0 <= i < a.len() && a[i] == x;
        assert(p[i - 1] == x);
    }
}

/// Sorting rows whose IDs differ makes the IDs ascend and keeps the rows.
proof fn lemma_rows_by_id(rows: Seq<ItocRow>)
    requires
        !ids_repeat(rows),
    ensures
        rows_ascend(rows_by_id(rows)),
        forall|x: ItocRow| #[trigger] rows_by_id(rows).contains(x) <==> rows.contains(x),
{
    let keys = row_ranks(rows);
    lemma_order_of(keys);
    let order = order_of(keys);
    let sorted = rows_by_id(rows);
    lemma_covers_injective(order, 0, rows.len() as int);
    assert forall|a: int, b: int| 0 <= a < b < sorted.len() implies (#[trigger] sorted[a]).id < (
    #[trigger] sorted[b]).id by {
        let (i, j) = (order[a], order[b]);
        assert(comes_before(keys, i, j));
        lemma_lex_single(rows[i].id as int, rows[j].id as int);
        assert(i != j);
        if i < j {
            assert(rows[i].id != rows[j].id);
        } else {
            assert(rows[j].id != rows[i].id);
        }
    }
    assert forall|x: ItocRow| #[trigger] sorted.contains(x) <==> rows.contains(x) by {
        if sorted.contains(x) {
            let a = choose|a: int| 0 <= a < sorted.len() && sorted[a] == x;
            assert(rows[order[a]] == x);
        }
        if rows.contains(x) {
            let i = choose|i: int| 0 <= i < rows.len() && rows[i] == x;
            assert(order.contains(i));
            let a = choose|a: int| 0 <= a < order.len() && order[a] == i;
            assert(sorted[a] == x);
        }
    }
}

/// Both groups together, sorted by ID, are the files in order.
proof fn lemma_groups_merge(job: Job)
    requires
        job.problem() is None,
        job.by_id(),
    ensures
        ({
            let low = rows_for(job.files, width_group(job.files, job.order(), true));
            let high = rows_for(job.files, width_group(job.files, job.order(), false));
            !ids_repeat(low + high) && rows_by_id(low + high) == rows_for(job.files, job.order())
        }),
{
    let order = job.order();
    let low = width_group(job.files, order, true);
    let high = width_group(job.files, order, false);
    let low_rows = rows_for(job.files, low);
    let high_rows = rows_for(job.files, high);
    let rows = low_rows + high_rows;
    let wanted = rows_for(job.files, order);
    law_files_stand_by_ascending_id(job);
    lemma_width_group(job.files, order, true);
    lemma_width_group(job.files, order, false);
    lemma_ids_distinct(job.files, 0);
    lemma_order_covers(job);
    assert forall|i: int, j: int| 0 <= i < j < rows.len() implies (#[trigger] rows[i]).id != (
    #[trigger] rows[j]).id by {
        if j < low_rows.len() {
            assert(job.files[low[i]].id < job.files[low[j]].id);
        } else if i >= low_rows.len() {
            let (a, b) = (i - low_rows.len(), j - low_rows.len());
            assert(job.files[high[a]].id < job.files[high[b]].id);
        } else {
            let x = low[i];
            let y = high[j - low_rows.len()];
            assert(low.contains(x) && high.contains(y));
            assert(order.contains(x) && order.contains(y));
            assert(x != y);
            let a = choose|a: int| 0 <= a < order.len() && order[a] == x;
            let b = choose|b: int| 0 <= b < order.len() && order[b] == y;
            if a < b {
                assert(job.files[order[a]].id < job.files[order[b]].id);
            } else {
                assert(job.files[order[b]].id < job.files[order[a]].id);
            }
        }
    }
    assert(!ids_repeat(rows));
    lemma_rows_by_id(rows);
    assert forall|a: int, b: int| 0 <= a < b < wanted.len() implies (#[trigger] wanted[a]).id < (
    #[trigger] wanted[b]).id by {
        assert(job.files[order[a]].id < job.files[order[b]].id);
    }
    assert forall|x: ItocRow| #[trigger] rows_by_id(rows).contains(x) <==> wanted.contains(x) by {
        if rows.contains(x) {
            let i = choose|i: int| 0 <= i < rows.len() && rows[i] == x;
            let f = if i < low_rows.len() {
                low[i]
            } else {
                high[i - low_rows.len()]
            };
            if i < low_rows.len() {
                assert(low.contains(f));
            } else {
                assert(high.contains(f));
            }
            assert(order.contains(f));
            let a = choose|a: int| 0 <= a < order.len() && order[a] == f;
            assert(wanted[a] == x);
        }
        if wanted.contains(x) {
            let a = choose|a: int| 0 <= a < wanted.len() && wanted[a] == x;
            let f = order[a];
            assert(order.contains(f));
            if is_low(job.files[f]) {
                assert(low.contains(f));
                let i = choose|i: int| 0 <= i < low.len() && low[i] == f;
                assert(rows[i] == x);
            } else {
                assert(high.contains(f));
                let i = choose|i: int| 0 <= i < high.len() && high[i] == f;
                assert(rows[low_rows.len() + i] == x);
            }
        }
    }
    lemma_rows_unique(rows_by_id(rows), wanted);
}

/// The rows of a direct ITOC are read as the files in order.
proof fn lemma_direct_rows(t: TableView, job: Job)
    requires
        job.problem() is None,
        job.by_id(),
        job.profile.direct_itoc,
        table_reads_as(t, job.itoc()),
    ensures
        all_itoc_rows(t, true) matches Ok(rows) && !ids_repeat(rows) && rows_by_id(rows) == rows_for(
            job.files,
            job.order(),
        ),
{
    let order = job.order();
    let rows = rows_for(job.files, order);
    lemma_ids_distinct(job.files, 0);
    lemma_order_covers(job);
    lemma_id_rows(t, job.files, order, false, "CpkExtendId"@, order.len());
    assert(rows.take(order.len() as int) =~= rows);
    law_files_stand_by_ascending_id(job);
    assert forall|a: int, b: int| 0 <= a < b < rows.len() implies (#[trigger] rows[a]).id < (
    #[trigger] rows[b]).id by {
        assert(job.files[order[a]].id < job.files[order[b]].id);
    }
    assert(!ids_repeat(rows));
    lemma_rows_by_id(rows);
    lemma_rows_unique(rows_by_id(rows), rows);
}

/// A standard ITOC holds both nested tables, also where one of them has no rows.
pub proof fn law_standard_itoc_holds_both_tables(t: TableView, job: Job)
    requires
        job.problem() is None,
        job.by_id(),
        !job.profile.direct_itoc,
        table_reads_as(t, job.itoc()),
    ensures
        t.data_named(0, "DataL"@) == Some(low_model(job.files, job.order()).bytes()),
        t.data_named(0, "DataH"@) == Some(high_model(job.files, job.order()).bytes()),
{
    let m = job.itoc();
    let low = low_model(job.files, job.order());
    let high = high_model(job.files, job.order());
    reveal_strlit("DataL");
    reveal_strlit("DataH");
    assert("DataL"@[4] == 'L' && "DataH"@[4] == 'H');
    lemma_lookup(t, m, "DataL"@, 0);
    lemma_lookup(t, m, "DataH"@, 1);
    assert(reads_as(t, 0, 0, m.rows[0][0]));
    assert(reads_as(t, 0, 1, m.rows[0][1]));
    lemma_sections(low);
    lemma_sections(high);
    lemma_total_bounds(low);
    lemma_total_bounds(high);
}

/// The rows of a standard ITOC, sorted by ID, are the files in order.
proof fn lemma_nested_rows(t: TableView, job: Job)
    requires
        job.problem() is None,
        job.by_id(),
        !job.profile.direct_itoc,
        table_reads_as(t, job.itoc()),
    ensures
        all_itoc_rows(t, false) matches Ok(rows) && !ids_repeat(rows) && rows_by_id(rows)
            == rows_for(job.files, job.order()),
{
    let order = job.order();
    let low = width_group(job.files, order, true);
    let high = width_group(job.files, order, false);
    law_standard_itoc_holds_both_tables(t, job);
    reveal_strlit("CpkItocL");
    reveal_strlit("CpkItocH");
    lemma_id_plain(job.files, low, true, "CpkItocL"@);
    lemma_id_plain(job.files, high, false, "CpkItocH"@);
    law_table_roundtrip(low_model(job.files, order));
    law_table_roundtrip(high_model(job.files, order));
    let low_table = table_of(low_model(job.files, order).bytes())->Ok_0;
    let high_table = table_of(high_model(job.files, order).bytes())->Ok_0;
    law_files_stand_by_ascending_id(job);
    lemma_width_group(job.files, order, true);
    lemma_width_group(job.files, order, false);
    lemma_ids_distinct(job.files, 0);
    lemma_order_covers(job);
    assert forall|k: int| 0 <= k < low.len() implies job.files[#[trigger] low[k]].id <= u16::MAX
        && is_low(job.files[low[k]]) by {
        assert(low.contains(low[k]));
        lemma_covered(order, job.files.len() as int, low[k]);
    }
    assert forall|k: int| 0 <= k < high.len() implies job.files[#[trigger] high[k]].id
        <= u16::MAX by {
        assert(high.contains(high[k]));
        lemma_covered(order, job.files.len() as int, high[k]);
    }
    lemma_id_rows(low_table, job.files, low, true, "CpkItocL"@, low.len());
    lemma_id_rows(high_table, job.files, high, false, "CpkItocH"@, high.len());
    let low_rows = rows_for(job.files, low);
    let high_rows = rows_for(job.files, high);
    assert(low_rows.take(low.len() as int) =~= low_rows);
    assert(high_rows.take(high.len() as int) =~= high_rows);
    lemma_groups_merge(job);
}

proof fn lemma_covered(order: Seq<int>, n: int, i: int)
    requires
        covers(order, 0, n),
        order.contains(i),
    ensures
        0 <= i < n,
{
    let a = choose|a: int| 0 <= a < order.len() && order[a] == i;
    assert(0 <= order[a] < n);
}

/// The aligned sizes of the files before a position lead to its offset.
proof fn lemma_relative_is_cursor(job: Job, k: int)
    requires
        job.problem() is None,
        0 <= k <= job.files.len(),
    ensures
        relative_offset(rows_for(job.files, job.order()), job.step(), k) == job.cursor(k)
            - job.content_offset(),
    decreases k,
{
    lemma_front(job);
    if k > 0 {
        lemma_relative_is_cursor(job, k - 1);
        lemma_order_covers(job);
        lemma_cursor_step(job, k - 1);
        lemma_aligned_shift(
            job.cursor(k - 1),
            job.files[job.order()[k - 1]].size as int,
            job.step(),
        );
    }
}

/// What is read of the file at position `k` in an ITOC.
pub open spec fn itoc_entry(job: Job, k: int) -> CpkFileView {
    let i = job.order()[k];
    CpkFileView {
        directory: Seq::empty(),
        file_name: id_name(job.files[i].id),
        file_offset: (job.offset(i) - job.content_offset()) as u64,
        absolute_offset: job.offset(i) as u64,
        file_size: job.files[i].size,
        extract_size: effective_extract_size(job.files[i].size, job.files[i].extract_size),
        id: Some(job.files[i].id),
        user_string: Seq::empty(),
        file_crc: None,
    }
}

/// The rows of the files in order are read as files at their offsets.
proof fn lemma_itoc_files(job: Job)
    requires
        job.problem() is None,
        job.by_id(),
    ensures
        itoc_files(
            rows_for(job.files, job.order()),
            job.content_offset(),
            job.step(),
        ) == Ok::<Seq<CpkFileView>, CpkReaderError>(
            Seq::new(job.files.len(), |k: int| itoc_entry(job, k)),
        ),
{
    let rows = rows_for(job.files, job.order());
    let n = job.files.len() as int;
    lemma_front(job);
    lemma_order_covers(job);
    lemma_offset_range(job, 0);
    lemma_relative_is_cursor(job, n);
    assert forall|k: int| 0 <= k < rows.len() implies job.content_offset()
        + #[trigger] relative_offset(rows, job.step(), k) <= u64::MAX by {
        lemma_relative_is_cursor(job, k);
        lemma_cursor_monotonic(job, k, n);
    }
    assert forall|k: int| 0 <= k < n implies #[trigger] itoc_file(
        rows,
        job.content_offset(),
        job.step(),
        k,
    ) == itoc_entry(job, k) by {
        lemma_relative_is_cursor(job, k);
        lemma_offset_at(job, k);
    }
    assert(itoc_files(rows, job.content_offset(), job.step())->Ok_0 =~= Seq::new(
        job.files.len(),
        |k: int| itoc_entry(job, k),
    ));
}

pub proof fn lemma_itoc_plain(job: Job)
    requires
        job.by_id(),
    ensures
        job.itoc().plain(),
{
    reveal_strlit("DataL");
    reveal_strlit("DataH");
    assert(no_nul("DataL"@));
    assert(no_nul("DataH"@));
    if job.profile.direct_itoc {
        lemma_id_plain(job.files, job.order(), false, "CpkExtendId"@);
    }
}

/// The ITOC of a written archive, standard or direct, lists the files by
/// ascending ID, each at its offset.
pub proof fn law_itoc_lists_the_files(
    job: Job,
    payloads: Seq<Seq<u8>>,
    stream: Seq<u8>,
    start: int,
)
    requires
        job.problem() is None,
        job.payloads_match(payloads),
        job.by_id(),
        stands_at(stream, start, job.archive(payloads)),
        start + job.archive_size() <= u64::MAX,
    ensures
        itoc_listing(stream, start, metadata_told(job)) == Ok::<Seq<CpkFileView>, CpkReaderError>(
            Seq::new(job.files.len(), |k: int| itoc_entry(job, k)),
        ),
{
    let m = job.itoc();
    let c = chunk(CpkChunkKind::Itoc, m.bytes());
    lemma_front(job);
    lemma_front_bounds(job);
    law_indexes_stand_at_their_offsets(job, payloads);
    law_payloads_stand_at_their_offsets(job, payloads, 0);
    lemma_stands_within(stream, start, job.archive(payloads), job.itoc_offset(), c);
    lemma_itoc_plain(job);
    let at = start + job.itoc_offset();
    lemma_table_at(stream, at, CpkChunkKind::Itoc, m);
    let t = table_at(stream, at, CpkChunkKind::Itoc)->Ok_0;
    if job.profile.direct_itoc {
        lemma_direct_rows(t, job);
    } else {
        lemma_nested_rows(t, job);
    }
    lemma_itoc_files(job);
    lemma_offset_range(job, 0);
}

/// What is listed of a written archive: an index by name gives the files as
/// they were given, one by ID alone gives them by ascending ID.
pub open spec fn entries(job: Job) -> Seq<CpkFileView> {
    if job.by_name() {
        Seq::new(job.files.len(), |i: int| toc_entry(job, i))
    } else {
        Seq::new(job.files.len(), |k: int| itoc_entry(job, k))
    }
}

/// The file that the entry `k` of the listing describes.
pub open spec fn entry_source(job: Job, k: int) -> int {
    if job.by_name() {
        k
    } else {
        job.order()[k]
    }
}

/// What is read of a written archive is what was written: its header, its
/// listing, and the packed bytes of every file of the listing. A file whose texts
/// hold no NUL is listed with them as they were given.
pub proof fn law_written_archive_reads_back(
    job: Job,
    payloads: Seq<Seq<u8>>,
    stream: Seq<u8>,
    start: int,
)
    requires
        job.problem() is None,
        job.payloads_match(payloads),
        readable(job),
        stands_at(stream, start, job.archive(payloads)),
        start + job.archive_size() <= u64::MAX,
    ensures
        header_at(stream, start) == Ok::<CpkMetadata, CpkReaderError>(metadata_told(job)),
        listing(stream, start, metadata_told(job)) == Ok::<Seq<CpkFileView>, CpkReaderError>(
            entries(job),
        ),
        forall|k: int|
            0 <= k < job.files.len() ==> packed_bytes(stream, start, #[trigger] entries(job)[k])
                == Ok::<Seq<u8>, CpkReaderError>(payloads[entry_source(job, k)]),
        job.by_name() ==> forall|i: int|
            0 <= i < job.files.len() && plain_texts(#[trigger] job.files[i]) ==> {
                &&& entries(job)[i].directory == job.files[i].directory
                &&& entries(job)[i].file_name == job.files[i].file_name
                &&& entries(job)[i].user_string == job.files[i].user_string
            },
{
    lemma_front(job);
    lemma_front_bounds(job);
    assert forall|i: int| 0 <= i < job.files.len() && plain_texts(#[trigger] job.files[i]) implies {
        &&& toc_entry(job, i).directory == job.files[i].directory
        &&& toc_entry(job, i).file_name == job.files[i].file_name
        &&& toc_entry(job, i).user_string == job.files[i].user_string
    } by {
        lemma_before_nul(job.files[i].directory);
        lemma_before_nul(job.files[i].file_name);
        lemma_before_nul(job.files[i].user_string);
    }
    law_header_reads_back(job, payloads, stream, start);
    if job.by_name() {
        law_toc_lists_the_files(job, payloads, stream, start);
    } else {
        law_itoc_lists_the_files(job, payloads, stream, start);
    }
    lemma_order_covers(job);
    assert forall|k: int| 0 <= k < job.files.len() implies packed_bytes(
        stream,
        start,
        #[trigger] entries(job)[k],
    ) == Ok::<Seq<u8>, CpkReaderError>(payloads[entry_source(job, k)]) by {
        let i = entry_source(job, k);
        law_payloads_stand_at_their_offsets(job, payloads, i);
        lemma_offset_range(job, i);
        lemma_stands_within(stream, start, job.archive(payloads), job.offset(i), payloads[i]);
        if payloads[i].len() == 0 {
            assert(payloads[i] =~= Seq::empty());
        }
    }
}

/// An archive with both indexes has one plan: the index by name and the index
/// by ID give each file the same place and size.
pub proof fn law_toc_and_itoc_share_one_plan(
    job: Job,
    payloads: Seq<Seq<u8>>,
    stream: Seq<u8>,
    start: int,
)
    requires
        job.problem() is None,
        job.payloads_match(payloads),
        readable(job),
        job.by_name(),
        job.by_id(),
        stands_at(stream, start, job.archive(payloads)),
        start + job.archive_size() <= u64::MAX,
    ensures
        ({
            let m = metadata_told(job);
            &&& toc_listing(stream, start, m) matches Ok(named)
            &&& itoc_listing(stream, start, m) matches Ok(numbered)
            &&& named.len() == numbered.len() == job.files.len()
            &&& forall|k: int|
                0 <= k < numbered.len() ==> {
                    let by_name = named[job.order()[k]];
                    &&& (#[trigger] numbered[k]).absolute_offset == by_name.absolute_offset
                    &&& numbered[k].file_size == by_name.file_size
                    &&& numbered[k].extract_size == by_name.extract_size
                    &&& numbered[k].id == by_name.id
                }
        }),
{
    law_toc_lists_the_files(job, payloads, stream, start);
    law_itoc_lists_the_files(job, payloads, stream, start);
    lemma_order_covers(job);
}

/// The copyright mark stands directly in front of the first index, behind the
/// whole header chunk.
pub proof fn law_copyright_mark_ends_the_header_area(job: Job, payloads: Seq<Seq<u8>>)
    requires
        job.problem() is None,
        job.payloads_match(payloads),
    ensures
        stands_at(
            job.archive(payloads),
            COPYRIGHT_MARKER_OFFSET as int,
            copyright_mark(),
        ),
        chunk(CpkChunkKind::Cpk, job.header().bytes()).len() <= COPYRIGHT_MARKER_OFFSET,
{
    lemma_front(job);
    lemma_sections(job.header());
    lemma_chunk_len(CpkChunkKind::Cpk, job.header().bytes());
    let at = COPYRIGHT_MARKER_OFFSET as int;
    let mark = copyright_mark();
    assert(job.head().subrange(at, at + mark.len()) =~= mark);
    if job.by_name() {
        lemma_stands_padded(
            job.head(),
            job.toc_offset(),
            chunk(CpkChunkKind::Toc, job.toc().bytes()),
            at,
            mark,
        );
    }
    if job.by_id() {
        lemma_stands_padded(
            job.head_and_toc(),
            job.itoc_offset(),
            chunk(CpkChunkKind::Itoc, job.itoc().bytes()),
            at,
            mark,
        );
    }
    lemma_stands_padded(job.head_and_indexes(), job.content_offset(), Seq::empty(), at, mark);
    lemma_stands_archive(job, payloads, 0, at, mark);
}

/// Packing and then reading gives back what was packed. A stored file is read
/// as its source, reused packed bytes as they were, and a file that was
/// transformed by a symmetric transform is extracted to its source. A source that
/// is compressed itself is extracted to what it decompresses to.
pub proof fn law_pack_then_extract<E: FileDecryptor, D: FileDecompressor>(
    job: Job,
    sources: Seq<Seq<u8>>,
    p5r: bool,
    available: bool,
    stream: Seq<u8>,
    start: int,
    k: int,
)
    requires
        readable(job),
        written::<E>(job, sources, p5r, available) matches Ok(archive) && stands_at(
            stream,
            start,
            archive,
        ),
        start + job.archive_size() <= u64::MAX,
        0 <= k < job.files.len(),
    ensures
        header_at(stream, start) == Ok::<CpkMetadata, CpkReaderError>(metadata_told(job)),
        listing(stream, start, metadata_told(job)) == Ok::<Seq<CpkFileView>, CpkReaderError>(
            entries(job),
        ),
        ({
            let i = entry_source(job, k);
            let entry = entries(job)[k];
            let source = sources[i];
            &&& packed_bytes(stream, start, entry) matches Ok(bytes)
            &&& action_for(job.files[i], p5r, available) matches Ok(action)
            &&& match action {
                PayloadAction::Reuse { absolute_offset, size } => {
                    &&& absolute_offset + size <= source.len() || size == 0
                    &&& size > 0 ==> bytes == source.subrange(
                        absolute_offset as int,
                        absolute_offset + size,
                    )
                },
                PayloadAction::Store => {
                    &&& bytes == source
                    &&& !E::marks(entry, source) ==> extracted::<E, D>(entry, bytes)
                        == expanded::<D>(source)
                },
                PayloadAction::Encrypt => {
                    &&& bytes == E::transformed(source)
                    &&& E::marks(entry, bytes) && E::transformed(E::transformed(source)) == source
                        ==> extracted::<E, D>(entry, bytes) == expanded::<D>(source)
                },
            }
        }),
{
    let payloads = payloads_of::<E>(job, sources, p5r, available);
    lemma_payloads_match::<E>(job, sources, p5r, available);
    law_written_archive_reads_back(job, payloads, stream, start);
    lemma_order_covers(job);
    let i = entry_source(job, k);
    assert(0 <= i < job.files.len());
    assert(packed::<E>(job.files[i], sources[i], p5r, available) is Ok);
    let entry = entries(job)[k];
    assert(packed_bytes(stream, start, entry) == Ok::<Seq<u8>, CpkReaderError>(payloads[i]));
}

/// The two files differ at most in where their bytes come from.
pub open spec fn same_entry(a: InputView, b: InputView) -> bool {
    &&& a.directory == b.directory
    &&& a.file_name == b.file_name
    &&& a.size == b.size
    &&& a.extract_size == b.extract_size
    &&& a.id == b.id
    &&& a.user_string == b.user_string
}

/// The two jobs differ at most in where the files' bytes come from.
pub open spec fn same_container(a: Job, b: Job) -> bool {
    &&& a.alignment == b.alignment
    &&& a.profile == b.profile
    &&& a.files.len() == b.files.len()
    &&& forall|i: int| 0 <= i < a.files.len() ==> same_entry(#[trigger] a.files[i], b.files[i])
}

proof fn lemma_same_id_problem(a: Job, b: Job, from: int)
    requires
        same_container(a, b),
        0 <= from,
    ensures
        id_problem(a.files, from) == id_problem(b.files, from),
    decreases a.files.len() - from,
{
    if from < a.files.len() {
        lemma_same_id_problem(a, b, from + 1);
        let x = a.files[from];
        let y = b.files[from];
        assert(same_entry(x, y));
        if exists|j: int| 0 <= j < from && (#[trigger] a.files[j]).id == x.id {
            let j = choose|j: int| 0 <= j < from && (#[trigger] a.files[j]).id == x.id;
            assert(b.files[j].id == y.id);
        }
        if exists|j: int| 0 <= j < from && (#[trigger] b.files[j]).id == y.id {
            let j = choose|j: int| 0 <= j < from && (#[trigger] b.files[j]).id == y.id;
            assert(a.files[j].id == x.id);
        }
    }
}

proof fn lemma_same_group(a: Job, b: Job, order: Seq<int>, low: bool)
    requires
        same_container(a, b),
        forall|k: int| 0 <= k < order.len() ==> 0 <= #[trigger] order[k] < a.files.len(),
    ensures
        width_group(a.files, order, low) == width_group(b.files, order, low),
        forall|k: int|
            0 <= k < width_group(a.files, order, low).len() ==> 0 <= #[trigger] width_group(
                a.files,
                order,
                low,
            )[k] < a.files.len(),
    decreases order.len(),
{
    reveal(Seq::filter);
    if order.len() > 0 {
        lemma_same_group(a, b, order.drop_last(), low);
        assert(same_entry(a.files[order.last()], b.files[order.last()]));
    }
}

proof fn lemma_same_id_model(a: Job, b: Job, indices: Seq<int>, low: bool, name: Seq<char>)
    requires
        same_container(a, b),
        forall|k: int| 0 <= k < indices.len() ==> 0 <= #[trigger] indices[k] < a.files.len(),
    ensures
        id_model(a.files, indices, low, name) == id_model(b.files, indices, low, name),
{
    assert(id_model(a.files, indices, low, name).rows =~= id_model(
        b.files,
        indices,
        low,
        name,
    ).rows) by {
        assert forall|k: int| 0 <= k < indices.len() implies id_row(a.files[#[trigger] indices[k]], low)
            == id_row(b.files[indices[k]], low) by {
            assert(same_entry(a.files[indices[k]], b.files[indices[k]]));
        }
    }
}

proof fn lemma_same_cursors(a: Job, b: Job, k: int)
    requires
        same_container(a, b),
        a.order() == b.order(),
        a.content_offset() == b.content_offset(),
        covers(a.order(), 0, a.files.len() as int),
        0 <= k <= a.files.len(),
    ensures
        a.cursor(k) == b.cursor(k),
    decreases k,
{
    if k > 0 {
        lemma_same_cursors(a, b, k - 1);
        assert(same_entry(a.files[a.order()[k - 1]], b.files[a.order()[k - 1]]));
    }
}

proof fn lemma_same_cursors_fit(a: Job, b: Job)
    requires
        same_container(a, b),
        a.order() == b.order(),
        covers(a.order(), 0, a.files.len() as int),
        forall|k: int| 0 <= k <= a.files.len() ==> a.cursor(k) == #[trigger] b.cursor(k),
        a.cursors_fit(),
    ensures
        b.cursors_fit(),
{
    assert forall|k: int| 0 <= k < b.files.len() implies #[trigger] b.cursor(k)
        + b.files[b.order()[k]].size + b.step() - 1 <= u64::MAX by {
        assert(same_entry(a.files[a.order()[k]], b.files[a.order()[k]]));
        assert(a.cursor(k) + a.files[a.order()[k]].size + a.step() - 1 <= u64::MAX);
    }
}

/// Where the bytes of the files come from changes neither whether an archive
/// can be laid out, nor its header, its indexes or any offset.
pub proof fn law_byte_sources_do_not_change_the_container(a: Job, b: Job)
    requires
        same_container(a, b),
    ensures
        a.problem() == b.problem(),
        a.report() == b.report(),
        a.front() == b.front(),
        a.order() == b.order(),
        forall|i: int| 0 <= i < a.files.len() ==> #[trigger] a.offset(i) == b.offset(i),
{
    let n = a.files.len();
    lemma_same_id_problem(a, b, 0);
    assert(id_ranks(a.files) =~= id_ranks(b.files)) by {
        assert forall|i: int| 0 <= i < n implies #[trigger] id_ranks(a.files)[i] == id_ranks(
            b.files,
        )[i] by {
            assert(same_entry(a.files[i], b.files[i]));
        }
    }
    assert(a.order() =~= b.order());
    lemma_order_covers(a);
    let order = a.order();
    lemma_same_group(a, b, order, true);
    lemma_same_group(a, b, order, false);
    lemma_same_id_model(a, b, order, false, "CpkExtendId"@);
    lemma_same_id_model(a, b, width_group(a.files, order, true), true, "CpkItocL"@);
    lemma_same_id_model(a, b, width_group(a.files, order, false), false, "CpkItocH"@);
    assert(a.itoc() == b.itoc());
    lemma_same_toc(a, b, Seq::new(n, |i: int| 0u64));
    assert(a.content_offset() == b.content_offset());
    assert forall|k: int| 0 <= k <= n implies #[trigger] a.cursor(k) == b.cursor(k) by {
        lemma_same_cursors(a, b, k);
    }
    assert forall|i: int| 0 <= i < n implies #[trigger] a.offset(i) == b.offset(i) by {
        let k = lemma_position(a, i);
        lemma_offset_at(a, k);
        lemma_offset_at(b, k);
    }
    assert(a.toc_offsets() =~= b.toc_offsets());
    lemma_same_toc(a, b, a.toc_offsets());
    if a.cursors_fit() {
        lemma_same_cursors_fit(a, b);
    }
    if b.cursors_fit() {
        assert(same_container(b, a)) by {
            assert forall|i: int| 0 <= i < n implies same_entry(#[trigger] b.files[i], a.files[i]) by {
                assert(same_entry(a.files[i], b.files[i]));
            }
        }
        lemma_same_cursors_fit(b, a);
    }
    assert(a.cursor(n as int) == b.cursor(n as int));
    assert(a.header() == b.header());
}

proof fn lemma_same_toc(a: Job, b: Job, offsets: Seq<u64>)
    requires
        same_container(a, b),
    ensures
        toc_model(a.files, offsets) == toc_model(b.files, offsets),
{
    assert(toc_model(a.files, offsets).rows =~= toc_model(b.files, offsets).rows) by {
        assert forall|i: int| 0 <= i < a.files.len() implies toc_row(
            #[trigger] a.files[i],
            offsets[i],
        ) == toc_row(b.files[i], offsets[i]) by {
            assert(same_entry(a.files[i], b.files[i]));
        }
    }
}

} // verus!
