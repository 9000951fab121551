//! What a written archive looks like, told by its bytes and by what is read of it.

use vstd::arithmetic::power2::is_pow2;
use vstd::prelude::*;

use crate::cpk::archive_laws::{
    entries, entry_source, law_copyright_mark_ends_the_header_area, law_files_are_aligned,
    law_files_stand_by_ascending_id, law_header_reads_back, law_indexes_stand_at_their_offsets,
    law_payloads_stand_at_their_offsets, law_written_archive_reads_back, lemma_chunk_read,
    lemma_header_plain, lemma_itoc_plain, lemma_lookup, lemma_toc_plain, plain_texts, readable,
};
use crate::cpk::encrypt::data::FileDecryptor;
use crate::cpk::encrypt::table::utf_signature;
use crate::cpk::error::WriterErrorView;
use crate::cpk::file::CpkFileView;
use crate::cpk::header::{chunk_at, table_of, CpkChunkKind, TableView};
use crate::cpk::index::{chunk, header_columns, width_group};
use crate::cpk::input::{default_profile, CpkIndexMode, InputView};
use crate::cpk::layout::{
    id_problem, lemma_cursor_monotonic, lemma_cursor_step, lemma_front, lemma_front_bounds,
    lemma_order_covers, lemma_position, lemma_toc_total, padded, Job,
};
use crate::cpk::reader::{header_at, listing, packed_bytes, table_at, text_or_empty};
use crate::cpk::utf::{interned, ColumnModel, Pool, TableModel};
use crate::cpk::utf_laws::{
    law_table_name_reads_back, law_table_roundtrip, lemma_header_fields, lemma_header_read,
    lemma_sections, reads_as, table_reads_as,
};
use crate::cpk::writer::packed;
use crate::schema::header::table_header;
use crate::utils::align::lemma_aligned;
use crate::utils::bytes::{group_stored_widths, stands_at};
use crate::utils::text::{before_nul, lemma_before_nul, no_nul};

verus! {

broadcast use group_stored_widths;

/// The first eight bytes of a plain chunk: what it is, and that it is not
/// encrypted.
proof fn lemma_chunk_front(stream: Seq<u8>, at: int, kind: CpkChunkKind, table: Seq<u8>)
    requires
        kind !is Unknown,
        stands_at(stream, at, chunk(kind, table)),
    ensures
        stands_at(stream, at, kind.magic_bytes() + seq![0xffu8, 0xffu8, 0xffu8, 0xffu8]),
{
    let c = chunk(kind, table);
    let front = kind.magic_bytes() + seq![0xffu8, 0xffu8, 0xffu8, 0xffu8];
    let piece = stream.subrange(at, at + c.len());
    assert(front.len() == 8);
    assert(c.len() >= 8);
    assert(stream.subrange(at, at + 8) =~= front) by {
        assert forall|i: int| 0 <= i < 8 implies stream[at + i] == front[i] by {
            assert(piece[i] == c[i]);
        }
    }
}

/// An archive begins with its header, has the copyright mark `(c)CRI` in front of
/// 0x800, and its index by name at 0x800; no table is encrypted.
pub proof fn law_archives_begin_with_their_header(job: Job, payloads: Seq<Seq<u8>>)
    requires
        job.problem() is None,
        job.payloads_match(payloads),
    ensures
        ({
            let archive = job.archive(payloads);
            let plain = seq![0xffu8, 0xffu8, 0xffu8, 0xffu8];
            &&& stands_at(archive, 0, seq!['C' as u8, 'P' as u8, 'K' as u8, ' ' as u8] + plain)
            &&& stands_at(
                archive,
                0x7fa,
                seq!['(' as u8, 'c' as u8, ')' as u8, 'C' as u8, 'R' as u8, 'I' as u8],
            )
            &&& job.profile.index_mode !is Itoc ==> stands_at(
                archive,
                0x800,
                seq!['T' as u8, 'O' as u8, 'C' as u8, ' ' as u8] + plain,
            )
            &&& job.profile.index_mode is Itoc ==> stands_at(
                archive,
                0x800,
                seq!['I' as u8, 'T' as u8, 'O' as u8, 'C' as u8] + plain,
            )
        }),
{
    let archive = job.archive(payloads);
    law_indexes_stand_at_their_offsets(job, payloads);
    law_copyright_mark_ends_the_header_area(job, payloads);
    lemma_chunk_front(archive, 0, CpkChunkKind::Cpk, job.header().bytes());
    if job.by_name() {
        lemma_chunk_front(archive, 0x800, CpkChunkKind::Toc, job.toc().bytes());
    } else {
        lemma_chunk_front(archive, 0x800, CpkChunkKind::Itoc, job.itoc().bytes());
    }
}

/// The header of a written archive tells its size, its alignment, how many files
/// it has, and where its indexes and its content stand: as close to each other as
/// the alignment lets them. It numbers the indexes it has, and tells nothing of
/// what the archive does not have.
pub proof fn law_header_tells_the_archive(job: Job, payloads: Seq<Seq<u8>>)
    requires
        job.problem() is None,
        job.payloads_match(payloads),
    ensures
        ({
            let archive = job.archive(payloads);
            let mode = job.profile.index_mode;
            let step = job.alignment as int;
            &&& header_at(archive, 0) matches Ok(m)
            &&& m.file_size == archive.len()
            &&& m.content_offset + m.content_size == m.file_size
            &&& m.content_offset as int % step == 0
            &&& m.file_size as int % step == 0
            &&& m.align == job.alignment
            &&& m.files == job.files.len()
            &&& m.version == job.profile.version
            &&& m.revision == job.profile.revision
            &&& m.update_date_time == job.profile.update_date_time
            &&& mode is Itoc ==> m.cpk_mode == 0
            &&& mode is Toc ==> m.cpk_mode == 1
            &&& mode is TocAndItoc ==> m.cpk_mode == 2
            &&& m.enable_file_name <==> mode !is Itoc
            &&& m.eid == 1 <==> mode !is Toc && job.profile.direct_itoc
            &&& m.eid == 0 || m.eid == 1
            &&& mode is Itoc ==> m.toc_offset == 0 && m.toc_size == 0
            &&& mode is Toc ==> m.itoc_offset == 0 && m.itoc_size == 0
            &&& mode !is Itoc ==> m.toc_offset == 0x800
            &&& mode is Itoc ==> m.itoc_offset == 0x800
            &&& mode is TocAndItoc ==> {
                &&& m.toc_offset + m.toc_size <= m.itoc_offset
                &&& m.itoc_offset < m.toc_offset + m.toc_size + step
                &&& m.itoc_offset as int % step == 0
            }
            &&& mode is Toc ==> m.toc_offset + m.toc_size <= m.content_offset < m.toc_offset
                + m.toc_size + step
            &&& mode !is Toc ==> m.itoc_offset + m.itoc_size <= m.content_offset < m.itoc_offset
                + m.itoc_size + step
            &&& mode !is Itoc ==> (chunk_at(archive, m.toc_offset as int) matches Ok((kind, table))
                && kind is Toc && table.len() + 0x10 == m.toc_size)
            &&& mode !is Toc ==> (chunk_at(archive, m.itoc_offset as int) matches Ok((kind, table))
                && kind is Itoc && table.len() + 0x10 == m.itoc_size)
            &&& m.etoc_offset == 0 && m.etoc_size == 0 && m.gtoc_offset == 0 && m.gtoc_size == 0
            &&& m.codec == 0 && m.dpk_itoc == 0
            &&& !m.sorted && !m.enable_toc_crc && !m.enable_file_crc
            &&& job.report().files == m.files
            &&& job.report().toc_offset == m.toc_offset
            &&& job.report().itoc_offset == m.itoc_offset
            &&& job.report().content_offset == m.content_offset
            &&& job.report().archive_size == m.file_size
        }),
{
    let archive = job.archive(payloads);
    assert(archive.subrange(0, archive.len() as int) =~= archive);
    law_header_reads_back(job, payloads, archive, 0);
    law_indexes_stand_at_their_offsets(job, payloads);
    law_payloads_stand_at_their_offsets(job, payloads, 0);
    law_files_are_aligned(job, 0);
    lemma_front(job);
    lemma_front_bounds(job);
    let n = job.files.len() as int;
    lemma_cursor_monotonic(job, 0, n);
    lemma_cursor_step(job, n - 1);
    assert(job.cursor(n - 1) + job.files[job.order()[n - 1]].size + job.step() - 1 <= u64::MAX);
    if job.by_name() {
        lemma_aligned(0x800 + job.toc_size(), job.step());
        lemma_toc_total(job.files, job.toc_offsets(), Seq::new(job.files.len(), |i: int| 0u64));
        lemma_chunk_read(archive, job.toc_offset(), CpkChunkKind::Toc, job.toc());
        lemma_sections(job.toc());
    }
    if job.by_id() {
        lemma_aligned(job.toc_end() + job.itoc_size(), job.step());
        lemma_chunk_read(archive, job.itoc_offset(), CpkChunkKind::Itoc, job.itoc());
        lemma_sections(job.itoc());
    }
    lemma_aligned(job.itoc_end(), job.step());
}

/// The table that a chunk of an archive holds has this name.
pub open spec fn table_is_named(archive: Seq<u8>, at: int, name: Seq<char>) -> bool {
    &&& chunk_at(archive, at) matches Ok((kind, bytes))
    &&& table_of(bytes) matches Ok(t)
    &&& t.strings.contains_key(t.header.name_field as int)
    &&& t.strings[t.header.name_field as int] == name
}

/// The tables of a written archive have the names that the engine knows them by,
/// and its header has the texts of the profile.
pub proof fn law_tables_have_their_names(job: Job, payloads: Seq<Seq<u8>>)
    requires
        job.problem() is None,
        job.payloads_match(payloads),
    ensures
        ({
            let archive = job.archive(payloads);
            let mode = job.profile.index_mode;
            let p = job.profile;
            &&& table_is_named(archive, 0, "CpkHeader"@)
            &&& mode !is Itoc ==> table_is_named(archive, job.toc_offset(), "CpkTocInfo"@)
            &&& mode !is Toc && p.direct_itoc ==> table_is_named(
                archive,
                job.itoc_offset(),
                "CpkExtendId"@,
            )
            &&& mode !is Toc && !p.direct_itoc ==> table_is_named(
                archive,
                job.itoc_offset(),
                "CpkItocInfo"@,
            )
            &&& table_at(archive, 0, CpkChunkKind::Cpk) matches Ok(t)
            &&& no_nul(p.tvers) ==> text_or_empty(t, 0, "Tvers"@) == p.tvers
            &&& no_nul(p.comment) ==> text_or_empty(t, 0, "Comment"@) == p.comment
        }),
{
    let archive = job.archive(payloads);
    law_indexes_stand_at_their_offsets(job, payloads);
    lemma_front(job);
    lemma_front_bounds(job);
    lemma_names_plain();
    lemma_header_plain(job.header_fields(), job.profile);
    lemma_chunk_read(archive, 0, CpkChunkKind::Cpk, job.header());
    law_table_name_reads_back(job.header());
    law_table_roundtrip(job.header());
    lemma_header_texts(job, table_of(job.header().bytes())->Ok_0);
    if job.by_name() {
        lemma_toc_total(job.files, job.toc_offsets(), Seq::new(job.files.len(), |i: int| 0u64));
        lemma_toc_plain(job.files, job.toc_offsets());
        lemma_chunk_read(archive, job.toc_offset(), CpkChunkKind::Toc, job.toc());
        law_table_name_reads_back(job.toc());
    }
    if job.by_id() {
        lemma_itoc_plain(job);
        lemma_chunk_read(archive, job.itoc_offset(), CpkChunkKind::Itoc, job.itoc());
        law_table_name_reads_back(job.itoc());
    }
}

proof fn lemma_names_plain()
    ensures
        before_nul("CpkHeader"@) == "CpkHeader"@,
        before_nul("CpkTocInfo"@) == "CpkTocInfo"@,
        before_nul("CpkExtendId"@) == "CpkExtendId"@,
        before_nul("CpkItocInfo"@) == "CpkItocInfo"@,
{
    reveal_strlit("CpkHeader");
    reveal_strlit("CpkTocInfo");
    reveal_strlit("CpkExtendId");
    reveal_strlit("CpkItocInfo");
    assert(no_nul("CpkHeader"@) && no_nul("CpkTocInfo"@));
    assert(no_nul("CpkExtendId"@) && no_nul("CpkItocInfo"@));
    lemma_before_nul("CpkHeader"@);
    lemma_before_nul("CpkTocInfo"@);
    lemma_before_nul("CpkExtendId"@);
    lemma_before_nul("CpkItocInfo"@);
}

#[verifier::rlimit(40)]
proof fn lemma_header_texts(job: Job, t: TableView)
    requires
        table_reads_as(t, job.header()),
    ensures
        no_nul(job.profile.tvers) ==> text_or_empty(t, 0, "Tvers"@) == job.profile.tvers,
        no_nul(job.profile.comment) ==> text_or_empty(t, 0, "Comment"@) == job.profile.comment,
{
    let m = job.header();
    reveal_strlit("Tvers");
    reveal_strlit("Comment");
    assert("Tvers"@.len() == 5 && "Tvers"@[0] == 'T');
    assert("Comment"@.len() == 7 && "Comment"@[0] == 'C' && "Comment"@[2] == 'm');
    lemma_other_columns(m.columns);
    lemma_lookup(t, m, "Tvers"@, 20);
    lemma_lookup(t, m, "Comment"@, 21);
    assert(reads_as(t, 0, 20, m.rows[0][20]));
    assert(reads_as(t, 0, 21, m.rows[0][21]));
    lemma_before_nul(job.profile.tvers);
    lemma_before_nul(job.profile.comment);
    if job.profile.tvers.len() == 0 {
        assert(text_or_empty(t, 0, "Tvers"@) =~= job.profile.tvers);
    }
    if job.profile.comment.len() == 0 {
        assert(text_or_empty(t, 0, "Comment"@) =~= job.profile.comment);
    }
}

/// No column of the header in front of the texts has the name of one of them.
#[verifier::rlimit(40)]
proof fn lemma_other_columns(columns: Seq<ColumnModel>)
    requires
        columns == header_columns(),
    ensures
        forall|k: int| 0 <= k < 20 ==> (#[trigger] columns[k]).name != "Tvers"@,
        forall|k: int| 0 <= k < 21 ==> (#[trigger] columns[k]).name != "Comment"@,
        columns.len() == 26,
        columns[20].name == "Tvers"@,
        columns[21].name == "Comment"@,
{
    reveal_strlit("Tvers");
    reveal_strlit("Comment");
    reveal_strlit("UpdateDateTime");
    reveal_strlit("FileSize");
    reveal_strlit("ContentOffset");
    reveal_strlit("ContentSize");
    reveal_strlit("TocOffset");
    reveal_strlit("TocSize");
    reveal_strlit("EtocOffset");
    reveal_strlit("EtocSize");
    reveal_strlit("ItocOffset");
    reveal_strlit("ItocSize");
    reveal_strlit("GtocOffset");
    reveal_strlit("GtocSize");
    reveal_strlit("Files");
    reveal_strlit("Version");
    reveal_strlit("Revision");
    reveal_strlit("Align");
    reveal_strlit("Sorted");
    reveal_strlit("EID");
    reveal_strlit("EnableFileName");
    reveal_strlit("CpkMode");
    assert("Tvers"@.len() == 5 && "Tvers"@[0] == 'T');
    assert("Comment"@.len() == 7 && "Comment"@[1] == 'o' && "Comment"@[0] == 'C');
    assert("Files"@.len() == 5 && "Files"@[0] == 'F');
    assert("Align"@.len() == 5 && "Align"@[0] == 'A');
    assert("TocSize"@.len() == 7 && "TocSize"@[0] == 'T');
    assert("Version"@.len() == 7 && "Version"@[0] == 'V');
    assert("CpkMode"@.len() == 7 && "CpkMode"@[1] == 'p');
    assert("UpdateDateTime"@.len() == 14 && "FileSize"@.len() == 8 && "ContentOffset"@.len() == 13);
    assert("ContentSize"@.len() == 11 && "TocOffset"@.len() == 9 && "EtocOffset"@.len() == 10);
    assert("EtocSize"@.len() == 8 && "ItocOffset"@.len() == 10 && "ItocSize"@.len() == 8);
    assert("GtocOffset"@.len() == 10 && "GtocSize"@.len() == 8 && "Revision"@.len() == 8);
    assert("Sorted"@.len() == 6 && "EID"@.len() == 3 && "EnableFileName"@.len() == 14);
}

/// The file is listed as it was given to be packed.
pub open spec fn listed_as_given(file: CpkFileView, given: InputView) -> bool {
    &&& file.id == Some(given.id)
    &&& file.file_size == given.size
    &&& given.extract_size > 0 ==> file.extract_size == given.extract_size
    &&& given.extract_size == 0 ==> file.extract_size == given.size
    &&& file.file_crc is None
}

/// What was packed is found again. The listing of a written archive has every file
/// that was given, with its ID and its sizes, and its packed bytes; an archive
/// with names lists them in the order in which they were given, with their
/// directories, names and user strings, one without lists them by ascending ID.
pub proof fn law_packed_files_are_found_again(
    job: Job,
    payloads: Seq<Seq<u8>>,
    stream: Seq<u8>,
    start: int,
    i: int,
) -> (k: int)
    requires
        job.problem() is None,
        job.payloads_match(payloads),
        readable(job),
        stands_at(stream, start, job.archive(payloads)),
        start + job.archive(payloads).len() <= u64::MAX,
        0 <= i < job.files.len(),
    ensures
        ({
            &&& header_at(stream, start) matches Ok(m)
            &&& listing(stream, start, m) matches Ok(files)
            &&& files.len() == job.files.len()
            &&& 0 <= k < files.len()
            &&& listed_as_given(files[k], job.files[i])
            &&& packed_bytes(stream, start, files[k]) matches Ok(bytes) && bytes == payloads[i]
            &&& files[k].absolute_offset as int % job.alignment as int == 0
            &&& job.profile.index_mode !is Itoc ==> {
                &&& k == i
                &&& files[k].file_offset + 0x800 == files[k].absolute_offset
                &&& plain_texts(job.files[i]) ==> {
                    &&& files[k].directory == job.files[i].directory
                    &&& files[k].file_name == job.files[i].file_name
                    &&& files[k].user_string == job.files[i].user_string
                }
            }
            &&& job.profile.index_mode is Itoc ==> forall|a: int, b: int|
                0 <= a < b < files.len() ==> (#[trigger] files[a]).id->Some_0 < (
                #[trigger] files[b]).id->Some_0
        }),
{
    law_payloads_stand_at_their_offsets(job, payloads, i);
    law_written_archive_reads_back(job, payloads, stream, start);
    law_files_are_aligned(job, i);
    lemma_front(job);
    lemma_order_covers(job);
    let files = entries(job);
    let k = if job.by_name() {
        i
    } else {
        lemma_position(job, i)
    };
    assert(entry_source(job, k) == i);
    assert(packed_bytes(stream, start, files[k]) is Ok);
    if !job.by_name() {
        law_files_stand_by_ascending_id(job);
    }
    k
}

/// Files stand close together. The first begins where the content does, each other
/// one less than an alignment behind the end of the one before it, and the archive
/// ends less than an alignment behind the last. With an index by ID, the one before
/// is that with the next smaller ID, else the one that was given before.
pub proof fn law_files_stand_close_together(job: Job, i: int, j: int)
    requires
        job.problem() is None,
        0 <= i < job.files.len(),
        0 <= j < job.files.len(),
    ensures
        ({
            let toc = job.profile.index_mode is Toc;
            let first = if toc {
                i == 0
            } else {
                forall|l: int|
                    0 <= l < job.files.len() && l != i ==> job.files[i].id < (
                    #[trigger] job.files[l]).id
            };
            let last = if toc {
                i == job.files.len() - 1
            } else {
                forall|l: int|
                    0 <= l < job.files.len() && l != i ==> (#[trigger] job.files[l]).id
                        < job.files[i].id
            };
            let next = if toc {
                j == i + 1
            } else {
                job.files[i].id < job.files[j].id && forall|l: int|
                    0 <= l < job.files.len() ==> (#[trigger] job.files[l]).id <= job.files[i].id
                        || job.files[j].id <= job.files[l].id
            };
            &&& first ==> job.offset(i) == job.content_offset()
            &&& next ==> job.offset(i) + job.files[i].size <= job.offset(j) < job.offset(i)
                + job.files[i].size + job.alignment
            &&& last ==> job.offset(i) + job.files[i].size <= job.archive_size() < job.offset(i)
                + job.files[i].size + job.alignment
        }),
{
    lemma_front(job);
    lemma_order_covers(job);
    let n = job.files.len() as int;
    let a = lemma_position(job, i);
    let b = lemma_position(job, j);
    lemma_cursor_step(job, a);
    let order = job.order();
    if job.by_id() {
        law_files_stand_by_ascending_id(job);
        if a > 0 {
            assert(job.files[order[0]].id < job.files[order[a]].id);
            assert(order[0] != i);
        }
        if a + 1 < n {
            let l = order[a + 1];
            assert(job.files[order[a]].id < job.files[l].id);
            assert(l != i);
            if a + 1 < b {
                assert(job.files[l].id < job.files[order[b]].id);
            }
        }
        if b < a {
            assert(job.files[order[b]].id < job.files[order[a]].id);
        }
    }
}

/// What cannot be packed is refused: an alignment that is no power of two, no
/// files, and with an index by ID an ID of more than 16 bits, an ID that two files
/// have, or content behind 32 bits.
pub proof fn law_what_the_engine_cannot_take_is_refused(job: Job, i: int, j: int)
    ensures
        !is_pow2(job.alignment as int) ==> job.problem() is Some,
        job.files.len() == 0 ==> job.problem() is Some,
        job.files.len() > u32::MAX ==> job.problem() is Some,
        job.profile.index_mode !is Toc && 0 <= i < job.files.len() && job.files[i].id > 0xffff
            ==> job.problem() is Some,
        job.profile.index_mode !is Toc && 0 <= i < j < job.files.len() && job.files[i].id
            == job.files[j].id ==> job.problem() is Some,
        job.profile.index_mode !is Toc && job.content_offset() > 0xffff_ffff ==> job.problem()
            is Some,
        !is_pow2(job.alignment as int) ==> job.problem() == Some(
            WriterErrorView::InvalidAlignment(job.alignment as u32),
        ),
        is_pow2(job.alignment as int) && job.files.len() == 0 ==> job.problem() == Some(
            WriterErrorView::EmptyInput,
        ),
        job.profile.index_mode is Toc ==> !(job.problem() matches Some(
            WriterErrorView::ItocIdTooLarge(_),
        )) && !(job.problem() matches Some(WriterErrorView::DuplicateItocId(_))) && !(
        job.problem() matches Some(WriterErrorView::ItocContentOffsetTooLarge(_))),
{
    if 0 <= i < job.files.len() && job.files[i].id > 0xffff {
        lemma_id_refused(job.files, 0, i);
    }
    if 0 <= i < j < job.files.len() && job.files[i].id == job.files[j].id {
        lemma_id_repeats(job.files, 0, i, j);
    }
}

proof fn lemma_id_refused(files: Seq<InputView>, from: int, i: int)
    requires
        0 <= from <= i < files.len(),
        files[i].id > 0xffff,
    ensures
        id_problem(files, from) is Some,
    decreases files.len() - from,
{
    if from < i {
        lemma_id_refused(files, from + 1, i);
    }
}

proof fn lemma_id_repeats(files: Seq<InputView>, from: int, i: int, j: int)
    requires
        0 <= from <= j < files.len(),
        0 <= i < j,
        files[i].id == files[j].id,
    ensures
        id_problem(files, from) is Some,
    decreases files.len() - from,
{
    if from < j {
        lemma_id_repeats(files, from + 1, i, j);
    }
}

/// Where the packed bytes of a file come from. Bytes to reuse are reused as they
/// are; else the file is transformed where that is asked for and it is marked for
/// it by its user string, and is refused where there is no transform; else it is
/// stored as it is.
pub proof fn law_packed_bytes_come_from_their_source<E: FileDecryptor>(
    file: InputView,
    source: Seq<u8>,
    p5r: bool,
    available: bool,
)
    ensures
        ({
            let marked = p5r && file.user_string == "CRI_CFATTR:ENCRYPT"@;
            &&& packed::<E>(file, source, p5r, available) matches Ok(bytes) ==> {
                &&& bytes.len() == file.size
                &&& match file.raw_payload {
                    Some(raw) => raw.size == file.size && (file.size > 0 ==> stands_at(
                        source,
                        raw.absolute_offset as int,
                        bytes,
                    )),
                    None => if marked {
                        available && bytes == E::transformed(source)
                    } else {
                        bytes == source
                    },
                }
            }
            &&& file.raw_payload is None && !marked && source.len() == file.size ==> packed::<E>(
                file,
                source,
                p5r,
                available,
            ) is Ok
            &&& file.raw_payload is None && marked && available && E::transformed(source).len()
                == file.size ==> packed::<E>(file, source, p5r, available) is Ok
            &&& file.raw_payload is None && marked && !available ==> packed::<E>(
                file,
                source,
                p5r,
                available,
            ) == Err::<Seq<u8>, WriterErrorView>(WriterErrorView::UnsupportedP5rEncryption)
            &&& (file.raw_payload matches Some(raw) && raw.size == file.size && raw.absolute_offset
                + raw.size <= source.len()) ==> packed::<E>(file, source, p5r, available) is Ok
        }),
{
    match file.raw_payload {
        Some(raw) => {
            if packed::<E>(file, source, p5r, available) is Ok && file.size > 0 {
                let bytes = packed::<E>(file, source, p5r, available)->Ok_0;
                let at = raw.absolute_offset as int;
                assert(source.subrange(at, at + bytes.len()) =~= bytes);
            }
        },
        None => {},
    }
}

/// A standard index by ID keeps apart the files whose sizes both have 16 bits and
/// those that have a larger one.
pub proof fn law_itoc_tables_are_told_by_size(files: Seq<InputView>, order: Seq<int>, i: int)
    ensures
        width_group(files, order, true).contains(i) <==> order.contains(i) && files[i].size
            <= 0xffff && files[i].extract_size <= 0xffff,
        width_group(files, order, false).contains(i) <==> order.contains(i) && (files[i].size
            > 0xffff || files[i].extract_size > 0xffff),
    decreases order.len(),
{
    reveal(Seq::filter);
    if order.len() > 0 {
        let front = order.drop_last();
        law_itoc_tables_are_told_by_size(files, front, i);
        lemma_contains_pushed(front, order.last(), i);
        lemma_contains_pushed(width_group(files, front, true), order.last(), i);
        lemma_contains_pushed(width_group(files, front, false), order.last(), i);
        assert(front.push(order.last()) =~= order);
    }
}

proof fn lemma_contains_pushed(s: Seq<int>, last: int, i: int)
    ensures
        s.push(last).contains(i) <==> s.contains(i) || i == last,
{
    if s.contains(i) {
        let k = choose|k: int| 0 <= k < s.len() && s[k] == i;
        assert(s.push(last)[k] == i);
    }
    if s.push(last).contains(i) {
        let k = choose|k: int| 0 <= k < s.push(last).len() && s.push(last)[k] == i;
        if k < s.len() {
            assert(s[k] == i);
        }
    }
    assert(s.push(last)[s.len() as int] == last);
}

/// A written table tells that its texts are UTF-8, and its sections stand one behind
/// the other: the header, five bytes for each column, the rows, the texts, and the
/// data.
pub proof fn law_written_tables_have_their_sections(m: TableModel)
    requires
        m.fits(),
    ensures
        ({
            let s = m.bytes();
            let h = table_header(s);
            &&& s.take(4) == seq!['@' as u8, 'U' as u8, 'T' as u8, 'F' as u8]
            &&& s[8] == 0 && s[9] == 1
            &&& s.len() == h.size_field + 8
            &&& h.columns_field == m.columns.len()
            &&& h.rows_count_field == m.rows.len()
            &&& h.rows_field + 8 == 0x20 + 5 * m.columns.len()
            &&& h.strings_field + 8 == h.rows_field + 8 + h.row_size_field * m.rows.len()
            &&& h.data_field + 8 == s.len() - m.data().len()
        }),
{
    let s = m.bytes();
    lemma_header_read(m);
    lemma_sections(m);
    assert(s.take(4) =~= s.subrange(0, 4));
    assert(utf_signature() =~= seq![
        '@' as u8,
        'U' as u8,
        'T' as u8,
        'F' as u8,
    ]);
    lemma_header_fields(m);
    let h = m.header_bytes();
    reveal(TableModel::header_bytes);
    assert(h.len() == 32);
    assert(s.subrange(0, 32) == h);
    assert(h[8] == 0 && h[9] == 1);
    assert(s[8] == s.subrange(0, 32)[8] && s[9] == s.subrange(0, 32)[9]);
}

/// A text stands once in a pool, however often it is put in, and what stands there
/// stays there.
pub proof fn law_texts_are_pooled_once(p: Pool, text: Seq<char>)
    ensures
        interned(interned(p, text), text) == interned(p, text),
        interned(p, text).offsets.contains_key(text),
        p.offsets.contains_key(text) ==> interned(p, text) == p,
        interned(p, text).bytes.take(p.bytes.len() as int) == p.bytes,
{
    assert(interned(p, text).bytes.take(p.bytes.len() as int) =~= p.bytes);
}

/// What is padded keeps its bytes and has zeros behind them, up to the offset.
pub proof fn law_padding_is_zero(s: Seq<u8>, at: int, i: int)
    ensures
        s.len() <= at ==> padded(s, at).len() == at,
        s.len() > at ==> padded(s, at) == s,
        padded(s, at).take(s.len() as int) == s,
        s.len() <= i < padded(s, at).len() ==> padded(s, at)[i] == 0,
{
    assert(padded(s, at).take(s.len() as int) =~= s);
    if s.len() > at {
        assert(padded(s, at) =~= s);
    }
}

/// An archive that is not made of another one has an index by name alone, and the
/// version 7 of the format.
pub proof fn law_new_archives_have_an_index_by_name()
    ensures
        default_profile().index_mode == CpkIndexMode::Toc,
        !default_profile().direct_itoc,
        default_profile().version == 7,
        default_profile().revision == 0,
        default_profile().update_date_time == 0,
        default_profile().tvers == "7.0.0"@,
        default_profile().comment == "Created by cri-cpk-cli"@,
{
}

} // verus!
