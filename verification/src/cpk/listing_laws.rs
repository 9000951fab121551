//! What is listed of an archive, told by its tables.

use vstd::prelude::*;
use vstd::utf8::encode_utf8;

use crate::cpk::compress::FileDecompressor;
use crate::cpk::encrypt::data::FileDecryptor;
use crate::cpk::file::CpkFileView;
use crate::cpk::header::{
    chunk_at, chunk_kind, number_of, table_of, ChunkError, CpkChunkKind, TableView,
};
use crate::cpk::reader::{
    all_itoc_rows, extracted, header_at, id_name, ids_repeat, itoc_file, itoc_files, itoc_listing,
    itoc_row, itoc_rows, listing, metadata_of, packed_bytes, relative_offset, row_ranks, rows_by_id,
    table_at, toc_file, toc_files, toc_listing, toc_rows, CpkMetadata, CpkReaderError, ItocRow,
};
use crate::cpk::table_laws::{
    constant_at, entry_at, flag_code, flag_constant, flag_stored,
    law_chunks_hold_plain_and_encrypted_tables, law_columns_are_found_by_name,
    law_header_fields_stand_at_their_places, law_kinds_are_spelled, law_strings_stand_in_the_pool,
    law_values_stand_in_rows_or_the_schema, scrambled,
};
use crate::manifest::fields::number_in;
use crate::manifest::numeral_laws::law_numerals_read_back;
use crate::schema::rows::RowValue;
use crate::utils::align::{aligned, lemma_aligned};
use crate::utils::bytes::{be32, le64, lemma_be32_read, stands_at};
use crate::utils::sort::{comes_before, lemma_lex_single, lemma_order_of, order_of};
use crate::utils::text::{numeral, shift_jis_text, zero_padded};

verus! {

/// The text is that of the row in the column with this name; it is empty where the
/// row has none, or has the null reference.
pub open spec fn is_text(t: TableView, row: int, name: Seq<char>, text: Seq<char>) -> bool {
    match t.value_named(row, name) {
        Some(RowValue::String(at)) => if at != 0 && t.strings.contains_key(at as int) {
            text == t.strings[at as int]
        } else {
            text.len() == 0
        },
        _ => text.len() == 0,
    }
}

/// The number is that of the row in the column with this name, if it has 32 bits.
pub open spec fn is_small(t: TableView, row: int, name: Seq<char>, number: Option<u32>) -> bool {
    match t.number_named(row, name) {
        Some(v) => if v <= 0xffff_ffff {
            number matches Some(n) && n == v
        } else {
            number is None
        },
        None => number is None,
    }
}

/// The file is the one that the row of a TOC tells.
pub open spec fn row_tells(t: TableView, row: int, file: CpkFileView) -> bool {
    &&& is_text(t, row, "FileName"@, file.file_name)
    &&& is_text(t, row, "DirName"@, file.directory)
    &&& is_text(t, row, "UserString"@, file.user_string)
    &&& t.number_named(row, "FileSize"@) == Some(file.file_size as u64)
    &&& t.number_named(row, "FileOffset"@) == Some(file.file_offset)
    &&& file.absolute_offset == file.file_offset + 0x800
    &&& match t.number_named(row, "ExtractSize"@) {
        Some(v) => if v == 0 {
            file.extract_size == file.file_size
        } else {
            file.extract_size == v
        },
        None => file.extract_size == file.file_size,
    }
    &&& is_small(t, row, "ID"@, file.id)
    &&& is_small(t, row, "FileCrc"@, file.file_crc)
}

/// The row of a TOC tells a file: it has a name and a size, the sizes have 32 bits,
/// and the place of the file has 64.
pub open spec fn row_is_complete(t: TableView, row: int) -> bool {
    &&& t.value_named(row, "FileName"@) matches Some(RowValue::String(at)) && at != 0
        && t.strings.contains_key(at as int)
    &&& t.number_named(row, "FileSize"@) matches Some(size) && size <= 0xffff_ffff
    &&& t.number_named(row, "FileOffset"@) matches Some(offset) && offset + 0x800
        <= 0xffff_ffff_ffff_ffff
    &&& t.number_named(row, "ExtractSize"@) matches Some(size) ==> size <= 0xffff_ffff
}

proof fn lemma_toc_file(t: TableView, row: int)
    requires
        t.index_of("FileName"@) is Some,
        t.index_of("FileSize"@) is Some,
        t.index_of("FileOffset"@) is Some,
    ensures
        toc_file(t, row) is Ok <==> row_is_complete(t, row),
        toc_file(t, row) matches Ok(file) ==> row_tells(t, row, file),
{
}

proof fn lemma_toc_rows(t: TableView, count: nat)
    requires
        t.index_of("FileName"@) is Some,
        t.index_of("FileSize"@) is Some,
        t.index_of("FileOffset"@) is Some,
    ensures
        toc_rows(t, count) is Ok <==> forall|row: int|
            0 <= row < count ==> #[trigger] row_is_complete(t, row),
        toc_rows(t, count) matches Ok(files) ==> files.len() == count && forall|row: int|
            0 <= row < count ==> row_tells(t, row, #[trigger] files[row]),
    decreases count,
{
    if count > 0 {
        lemma_toc_rows(t, (count - 1) as nat);
        lemma_toc_file(t, count - 1);
        if toc_rows(t, count) is Err && toc_rows(t, (count - 1) as nat) is Ok {
            assert(!row_is_complete(t, count - 1));
        }
        if toc_rows(t, (count - 1) as nat) is Err {
            let row = choose|row: int|
                0 <= row < count - 1 && !(#[trigger] row_is_complete(t, row));
            assert(!row_is_complete(t, row));
        }
        if toc_rows(t, count) is Ok {
            let before = toc_rows(t, (count - 1) as nat)->Ok_0;
            let files = toc_rows(t, count)->Ok_0;
            assert forall|row: int| 0 <= row < count implies row_tells(
                t,
                row,
                #[trigger] files[row],
            ) by {
                if row < count - 1 {
                    assert(files[row] == before[row]);
                }
            }
        }
    }
}

/// A TOC lists one file for each row: its texts, its sizes, its place behind
/// 0x800, its ID and its checksum are those that the row tells. A TOC with the
/// columns for the name, the size and the place is listed just where every row
/// has them.
pub proof fn law_toc_rows_tell_the_files(t: TableView)
    ensures
        toc_files(t) is Ok <==> t.index_of("FileName"@) is Some && t.index_of("FileSize"@) is Some
            && t.index_of("FileOffset"@) is Some && forall|row: int|
            0 <= row < t.rows.len() ==> #[trigger] row_is_complete(t, row),
        toc_files(t) matches Ok(files) ==> files.len() == t.rows.len() && forall|row: int|
            0 <= row < t.rows.len() ==> row_tells(t, row, #[trigger] files[row]),
{
    if t.index_of("FileName"@) is Some && t.index_of("FileSize"@) is Some && t.index_of(
        "FileOffset"@,
    ) is Some {
        lemma_toc_rows(t, t.rows.len());
    }
}

/// A text that stands in the schema of a TOC is that of every file: where the
/// column of the directories, of the user strings or of the names has no values in
/// the rows and a string in the schema, each file is listed with that string.
pub proof fn law_constant_texts_are_listed(
    stream: Seq<u8>,
    start: int,
    m: CpkMetadata,
    alloc: Seq<u8>,
    name: Seq<char>,
    place: u32,
    bytes: Seq<u8>,
    text: Seq<char>,
    row: int,
)
    requires
        m.toc_offset != 0,
        start + m.toc_offset <= u64::MAX,
        chunk_at(stream, start + m.toc_offset) == Ok::<(CpkChunkKind, Seq<u8>), ChunkError>(
            (CpkChunkKind::Toc, alloc),
        ),
        table_of(alloc) is Ok,
        table_of(alloc)->Ok_0.index_of(name) is Some,
        0 <= row < table_of(alloc)->Ok_0.rows.len(),
        forall|i: int| 0 <= i < bytes.len() ==> #[trigger] bytes[i] != 0,
        alloc[9] == 1 ==> bytes == encode_utf8(text),
        alloc[9] != 1 ==> text == shift_jis_text(bytes),
        place != 0,
        ({
            let t = table_of(alloc)->Ok_0;
            let s = t.bytes;
            let j = t.index_of(name)->Some_0;
            let flag = s[entry_at(s, j as nat)];
            let pool = s.subrange(t.header.strings_field + 8, t.header.data_field + 8);
            &&& flag_constant(flag) && !flag_stored(flag) && flag_code(flag) == 10
            &&& stands_at(s, constant_at(s, j as nat), be32(place))
            &&& stands_at(pool, place as int, bytes.push(0)) && pool[place - 1] == 0
        }),
    ensures
        listing(stream, start, m) matches Ok(files) ==> {
            &&& name == "DirName"@ ==> files[row].directory == text
            &&& name == "UserString"@ ==> files[row].user_string == text
            &&& name == "FileName"@ ==> files[row].file_name == text
        },
{
    let t = table_of(alloc)->Ok_0;
    let s = t.bytes;
    let j = t.index_of(name)->Some_0;
    let there = constant_at(s, j as nat);
    law_header_fields_stand_at_their_places(alloc);
    law_columns_are_found_by_name(alloc, name);
    law_values_stand_in_rows_or_the_schema(alloc, row, j);
    law_strings_stand_in_the_pool(alloc, place as int, bytes, text);
    law_toc_rows_tell_the_files(t);
    let value = t.value_at(row, j)->Some_0;
    match value {
        RowValue::String(at) => {
            assert(stands_at(s, there, be32(at)));
            lemma_be32_read(s, there, at);
            lemma_be32_read(s, there, place);
        },
        _ => {},
    }
    assert(t.value_named(row, name) == Some(RowValue::String(place)));
    if listing(stream, start, m) is Ok {
        let files = listing(stream, start, m)->Ok_0;
        assert(row_tells(t, row, files[row]));
    }
}

/// The header field is the number in the first row of the column with this name;
/// zero where there is none, or where it is above the limit.
pub open spec fn is_field(t: TableView, name: Seq<char>, value: int, limit: int) -> bool {
    match t.number_named(0, name) {
        Some(v) => if v <= limit {
            value == v
        } else {
            value == 0
        },
        None => value == 0,
    }
}

/// What is told of an archive stands in the first row of its header table, each
/// number in the column of its name.
pub proof fn law_header_columns_tell_the_archive(t: TableView)
    ensures
        ({
            let m = metadata_of(t);
            let wide = 0xffff_ffff_ffff_ffffint;
            &&& is_field(t, "FileSize"@, m.file_size as int, wide)
            &&& is_field(t, "ContentOffset"@, m.content_offset as int, wide)
            &&& is_field(t, "ContentSize"@, m.content_size as int, wide)
            &&& is_field(t, "TocOffset"@, m.toc_offset as int, wide)
            &&& is_field(t, "TocSize"@, m.toc_size as int, wide)
            &&& is_field(t, "ItocOffset"@, m.itoc_offset as int, wide)
            &&& is_field(t, "ItocSize"@, m.itoc_size as int, wide)
            &&& is_field(t, "EtocOffset"@, m.etoc_offset as int, wide)
            &&& is_field(t, "EtocSize"@, m.etoc_size as int, wide)
            &&& is_field(t, "GtocOffset"@, m.gtoc_offset as int, wide)
            &&& is_field(t, "GtocSize"@, m.gtoc_size as int, wide)
            &&& is_field(t, "UpdateDateTime"@, m.update_date_time as int, wide)
            &&& is_field(t, "Version"@, m.version as int, 0xffff)
            &&& is_field(t, "Revision"@, m.revision as int, 0xffff)
            &&& is_field(t, "Align"@, m.align as int, 0xffff)
            &&& is_field(t, "EID"@, m.eid as int, 0xffff)
            &&& is_field(t, "Files"@, m.files as int, 0xffff_ffff)
            &&& is_field(t, "CpkMode"@, m.cpk_mode as int, 0xffff_ffff)
            &&& is_field(t, "Codec"@, m.codec as int, 0xffff_ffff)
            &&& is_field(t, "DpkItoc"@, m.dpk_itoc as int, 0xffff_ffff)
            &&& m.sorted <==> (t.number_named(0, "Sorted"@) matches Some(v) && v > 0)
            &&& m.enable_file_name <==> (t.number_named(0, "EnableFileName"@) matches Some(v) && v
                > 0)
            &&& m.enable_toc_crc <==> (t.number_named(0, "EnableTocCrc"@) matches Some(v) && v > 0)
            &&& m.enable_file_crc <==> (t.number_named(0, "EnableFileCrc"@) matches Some(v) && v
                > 0)
        }),
{
}

/// Of an archive with both indexes the one by name is listed, of one without an
/// index nothing.
pub proof fn law_the_index_by_name_goes_first(stream: Seq<u8>, start: int, m: CpkMetadata)
    ensures
        m.toc_offset > 0 ==> listing(stream, start, m) == toc_listing(stream, start, m),
        m.toc_offset == 0 && m.itoc_offset > 0 ==> listing(stream, start, m) == itoc_listing(
            stream,
            start,
            m,
        ),
        m.toc_offset == 0 && m.itoc_offset == 0 ==> listing(stream, start, m) is Err,
{
}

/// The number in a column of an ITOC: that with this name or, where there is none,
/// that at the place where such a column usually stands.
pub open spec fn usual_number(t: TableView, row: int, name: Seq<char>, usual: int) -> Option<u64> {
    let column = match t.index_of(name) {
        Some(j) => j,
        None => usual,
    };
    match t.value_at(row, column) {
        Some(value) => number_of(value),
        None => None,
    }
}

/// The row of an ITOC tells an ID and the sizes; without an extracted size it is
/// the packed one.
pub proof fn law_itoc_rows_tell_ids_and_sizes(t: TableView, row: int)
    ensures
        itoc_row(t, row) is Ok <==> {
            &&& usual_number(t, row, "ID"@, 0) matches Some(id) && id <= 0xffff_ffff
            &&& usual_number(t, row, "FileSize"@, 1) matches Some(size) && size <= 0xffff_ffff
            &&& usual_number(t, row, "ExtractSize"@, 2) matches Some(size) ==> size <= 0xffff_ffff
        },
        itoc_row(t, row) matches Ok(r) ==> {
            &&& usual_number(t, row, "ID"@, 0) == Some(r.id as u64)
            &&& usual_number(t, row, "FileSize"@, 1) == Some(r.file_size as u64)
            &&& match usual_number(t, row, "ExtractSize"@, 2) {
                Some(size) => r.extract_size == size,
                None => r.extract_size == r.file_size,
            }
            &&& is_small(t, row, "FileCrc"@, r.file_crc)
        },
{
}

proof fn lemma_itoc_rows(t: TableView, count: nat)
    requires
        itoc_rows(t, count) is Ok,
    ensures
        itoc_rows(t, count)->Ok_0.len() == count,
        forall|row: int|
            0 <= row < count ==> itoc_row(t, row) == Ok::<ItocRow, CpkReaderError>(
                #[trigger] itoc_rows(t, count)->Ok_0[row],
            ),
    decreases count,
{
    if count > 0 {
        lemma_itoc_rows(t, (count - 1) as nat);
        let before = itoc_rows(t, (count - 1) as nat)->Ok_0;
        let rows = itoc_rows(t, count)->Ok_0;
        assert forall|row: int| 0 <= row < count implies itoc_row(t, row) == Ok::<
            ItocRow,
            CpkReaderError,
        >(#[trigger] rows[row]) by {
            if row < count - 1 {
                assert(rows[row] == before[row]);
            }
        }
    }
}

/// A direct ITOC has its rows in the table itself. A standard one has them in two
/// tables inside its first row, `DataL` and `DataH`, and is refused where one of
/// these is missing.
pub proof fn law_itoc_rows_stand_in_one_table_or_two(t: TableView)
    ensures
        all_itoc_rows(t, true) matches Ok(rows) ==> rows.len() == t.rows.len() && forall|i: int|
            0 <= i < rows.len() ==> itoc_row(t, i) == Ok::<ItocRow, CpkReaderError>(
                #[trigger] rows[i],
            ),
        all_itoc_rows(t, false) matches Ok(rows) ==> {
            &&& t.data_named(0, "DataL"@) matches Some(low)
            &&& t.data_named(0, "DataH"@) matches Some(high)
            &&& table_of(low) matches Ok(a)
            &&& table_of(high) matches Ok(b)
            &&& rows.len() == a.rows.len() + b.rows.len()
            &&& forall|i: int|
                0 <= i < a.rows.len() ==> itoc_row(a, i) == Ok::<ItocRow, CpkReaderError>(
                    #[trigger] rows[i],
                )
            &&& forall|i: int|
                a.rows.len() <= i < rows.len() ==> itoc_row(b, i - a.rows.len()) == Ok::<
                    ItocRow,
                    CpkReaderError,
                >(#[trigger] rows[i])
        },
        t.data_named(0, "DataL"@) is None || t.data_named(0, "DataH"@) is None ==> all_itoc_rows(
            t,
            false,
        ) == Err::<Seq<ItocRow>, CpkReaderError>(CpkReaderError::InvalidItoc),
{
    if itoc_rows(t, t.rows.len()) is Ok {
        lemma_itoc_rows(t, t.rows.len());
    }
    if all_itoc_rows(t, false) is Ok {
        let a = table_of(t.data_named(0, "DataL"@)->Some_0)->Ok_0;
        let b = table_of(t.data_named(0, "DataH"@)->Some_0)->Ok_0;
        lemma_itoc_rows(a, a.rows.len());
        lemma_itoc_rows(b, b.rows.len());
    }
}

/// The rows of an ITOC whose IDs differ are listed by ascending ID, each once.
proof fn lemma_rows_by_id(rows: Seq<ItocRow>)
    requires
        !ids_repeat(rows),
    ensures
        rows_by_id(rows).len() == rows.len(),
        forall|a: int, b: int|
            0 <= a < b < rows.len() ==> (#[trigger] rows_by_id(rows)[a]).id < (
            #[trigger] rows_by_id(rows)[b]).id,
        forall|i: int| 0 <= i < rows.len() ==> #[trigger] rows_by_id(rows).contains(rows[i]),
{
    let keys = row_ranks(rows);
    lemma_order_of(keys);
    let order = order_of(keys);
    let sorted = rows_by_id(rows);
    assert forall|a: int, b: int| 0 <= a < b < rows.len() implies (#[trigger] sorted[a]).id < (
    #[trigger] sorted[b]).id by {
        assert(comes_before(keys, order[a], order[b]));
        lemma_lex_single(rows[order[a]].id as int, rows[order[b]].id as int);
        let (i, j) = (order[a], order[b]);
        assert(i != j);
        if rows[i].id == rows[j].id {
            if i < j {
                assert(ids_repeat(rows));
            } else {
                assert(rows[j].id == rows[i].id);
                assert(ids_repeat(rows));
            }
        }
    }
    assert forall|i: int| 0 <= i < rows.len() implies #[trigger] sorted.contains(rows[i]) by {
        assert(order.contains(i));
        let k = choose|k: int| 0 <= k < order.len() && order[k] == i;
        assert(sorted[k] == rows[i]);
    }
}

/// The file has the ID, the sizes and the checksum that the row of an ITOC tells,
/// and is named after its ID.
pub open spec fn is_of_row(file: CpkFileView, row: ItocRow) -> bool {
    &&& file.id == Some(row.id)
    &&& file.file_size == row.file_size
    &&& row.extract_size == 0 ==> file.extract_size == row.file_size
    &&& row.extract_size > 0 ==> file.extract_size == row.extract_size
    &&& file.file_crc == row.file_crc
    &&& file.directory.len() == 0
    &&& file.user_string.len() == 0
    &&& file.file_name == id_name(row.id)
}

/// The files of an ITOC stand one behind the other in the order of their IDs. The
/// first begins where the content does; each other one begins at the first
/// multiple of the alignment, counted from there, behind the end of the one
/// before it. IDs that repeat are refused.
pub proof fn law_itoc_files_stand_by_ascending_id(
    rows: Seq<ItocRow>,
    content_offset: int,
    alignment: int,
    k: int,
)
    requires
        !ids_repeat(rows),
        0 <= content_offset,
        alignment > 0,
        itoc_files(rows_by_id(rows), content_offset, alignment) is Ok,
    ensures
        ({
            let files = itoc_files(rows_by_id(rows), content_offset, alignment)->Ok_0;
            &&& files.len() == rows.len()
            &&& forall|i: int|
                0 <= i < rows.len() ==> exists|j: int|
                    0 <= j < files.len() && is_of_row(#[trigger] files[j], #[trigger] rows[i])
            &&& files.len() > 0 ==> files[0].absolute_offset == content_offset
            &&& 0 <= k < files.len() ==> {
                &&& exists|i: int|
                    0 <= i < rows.len() && is_of_row(files[k], #[trigger] rows[i])
                &&& files[k].absolute_offset == content_offset + files[k].file_offset
                &&& files[k].file_offset as int % alignment == 0
            }
            &&& 0 <= k < files.len() - 1 ==> {
                &&& files[k].id->Some_0 < files[k + 1].id->Some_0
                &&& files[k].file_offset + files[k].file_size <= files[k + 1].file_offset
                &&& files[k + 1].file_offset < files[k].file_offset + files[k].file_size + alignment
            }
        }),
{
    let sorted = rows_by_id(rows);
    let files = itoc_files(sorted, content_offset, alignment)->Ok_0;
    let order = order_of(row_ranks(rows));
    lemma_order_of(row_ranks(rows));
    lemma_rows_by_id(rows);
    assert forall|i: int| 0 <= i < rows.len() implies exists|j: int|
        0 <= j < files.len() && is_of_row(#[trigger] files[j], #[trigger] rows[i]) by {
        assert(sorted.contains(rows[i]));
        let j = choose|j: int| 0 <= j < sorted.len() && sorted[j] == rows[i];
        assert(files[j] == itoc_file(sorted, content_offset, alignment, j));
        assert(is_of_row(files[j], rows[i]));
    }
    if 0 <= k < files.len() {
        assert(files[k] == itoc_file(sorted, content_offset, alignment, k));
        lemma_relative(sorted, alignment, k);
        assert(0 <= order[k] < rows.len());
        assert(is_of_row(files[k], rows[order[k]]));
        assert(content_offset + relative_offset(sorted, alignment, k) <= u64::MAX);
    }
    if 0 <= k < files.len() - 1 {
        assert(files[k + 1] == itoc_file(sorted, content_offset, alignment, k + 1));
        lemma_relative(sorted, alignment, k + 1);
        assert(content_offset + relative_offset(sorted, alignment, k + 1) <= u64::MAX);
        lemma_aligned(sorted[k].file_size as int, alignment);
        assert(sorted[k].id < sorted[k + 1].id);
    }
    if files.len() > 0 {
        assert(files[0] == itoc_file(sorted, content_offset, alignment, 0));
        assert(content_offset + relative_offset(sorted, alignment, 0) <= u64::MAX);
    }
}

proof fn lemma_relative(rows: Seq<ItocRow>, alignment: int, k: int)
    requires
        alignment > 0,
        0 <= k,
    ensures
        0 <= relative_offset(rows, alignment, k),
        relative_offset(rows, alignment, k) % alignment == 0,
    decreases k,
{
    if k > 0 {
        lemma_relative(rows, alignment, k - 1);
        let before = relative_offset(rows, alignment, k - 1);
        let size = rows[k - 1].file_size as int;
        lemma_aligned(size, alignment);
        let more = aligned(size, alignment);
        vstd::arithmetic::div_mod::lemma_add_mod_noop(before, more, alignment);
        vstd::arithmetic::div_mod::lemma_small_mod(0, alignment as nat);
    } else {
        vstd::arithmetic::div_mod::lemma_small_mod(0, alignment as nat);
    }
}

/// The listing of an archive that has an index by ID alone is that of the rows of
/// its ITOC, sorted; what the engine cannot take is refused.
pub proof fn law_itoc_listings_are_sorted(stream: Seq<u8>, start: int, m: CpkMetadata)
    requires
        itoc_listing(stream, start, m) is Ok,
    ensures
        0 < m.content_offset <= 0xffff_ffff,
        ({
            &&& table_at(stream, start + m.itoc_offset, CpkChunkKind::Itoc) matches Ok(t)
            &&& all_itoc_rows(t, m.eid > 0) matches Ok(rows)
            &&& !ids_repeat(rows)
            &&& itoc_listing(stream, start, m) == itoc_files(
                rows_by_id(rows),
                m.content_offset as int,
                if m.align > 0 {
                    m.align as int
                } else {
                    1
                },
            )
        }),
{
}

/// A file without a name is named after its ID: the ID in five decimal digits or
/// as many as it has, and `.bin`.
pub proof fn law_nameless_files_are_named_after_their_id(id: u32)
    ensures
        ({
            let name = id_name(id);
            let n = name.len() as int;
            &&& n >= 9
            &&& name.skip(n - 4) == seq!['.', 'b', 'i', 'n']
            &&& number_in(name.take(n - 4), 10, u64::MAX as int) == Some(id as int)
            &&& n > 9 ==> name[0] != '0'
        }),
{
    let digits = zero_padded(numeral(id as nat, 10), 5);
    let name = id_name(id);
    reveal_strlit(".bin");
    assert(".bin"@ =~= seq!['.', 'b', 'i', 'n']);
    law_numerals_read_back(id as u64, 10, 5);
    assert(name.take(name.len() - 4) =~= digits);
    assert(name.skip(name.len() - 4) =~= ".bin"@);
}

/// The packed bytes of a file are the bytes of the stream at its place, as many as
/// its packed size says; they are read just where the stream has them all.
pub proof fn law_packed_bytes_stand_at_their_place(stream: Seq<u8>, start: int, file: CpkFileView)
    requires
        0 <= start,
    ensures
        packed_bytes(stream, start, file) is Ok <==> {
            &&& start + file.absolute_offset <= 0xffff_ffff_ffff_ffff
            &&& file.file_size == 0 || start + file.absolute_offset + file.file_size <= stream.len()
        },
        packed_bytes(stream, start, file) matches Ok(bytes) ==> {
            &&& bytes.len() == file.file_size
            &&& file.file_size > 0 ==> stands_at(stream, start + file.absolute_offset, bytes)
        },
{
}

/// A file is extracted by decrypting its packed bytes, where they are marked for
/// that, and then decompressing what that gives, where it is compressed.
pub proof fn law_files_are_decrypted_and_then_decompressed<E: FileDecryptor, D: FileDecompressor>(
    file: CpkFileView,
    packed: Seq<u8>,
)
    ensures
        !E::marks(file, packed) && !D::recognises(packed) ==> extracted::<E, D>(file, packed)
            == packed,
        !E::marks(file, packed) && D::recognises(packed) ==> extracted::<E, D>(file, packed)
            == D::decompressed(packed),
        E::marks(file, packed) && !D::recognises(E::transformed(packed)) ==> extracted::<E, D>(
            file,
            packed,
        ) == E::transformed(packed),
        E::marks(file, packed) && D::recognises(E::transformed(packed)) ==> extracted::<E, D>(
            file,
            packed,
        ) == D::decompressed(E::transformed(packed)),
{
}

/// The table as a chunk stores it.
pub open spec fn stored_table(table: Seq<u8>, encrypted: bool) -> Seq<u8> {
    if encrypted {
        scrambled(table)
    } else {
        table
    }
}

/// A chunk stands at the offset: the magic, a marker, the size and the table, as
/// it is or encrypted.
pub open spec fn chunk_stands(
    stream: Seq<u8>,
    at: int,
    magic: Seq<u8>,
    table: Seq<u8>,
    encrypted: bool,
) -> bool {
    exists|marker: Seq<u8>|
        marker.len() == 4 && (marker[0] == 0 <==> encrypted) && #[trigger] stands_at(
            stream,
            at,
            magic + marker + le64(table.len() as u64) + stored_table(table, encrypted),
        )
}

/// An archive is listed alike whether its tables are encrypted or not.
pub proof fn law_encrypted_archives_are_listed_alike(
    a: Seq<u8>,
    b: Seq<u8>,
    start: int,
    header: Seq<u8>,
    toc: Seq<u8>,
    a_header: bool,
    b_header: bool,
    a_toc: bool,
    b_toc: bool,
)
    requires
        0 <= start,
        0x20 <= header.len() <= 0x7f0,
        header.take(4) == seq![0x40u8, 0x55u8, 0x54u8, 0x46u8],
        0x20 <= toc.len() <= usize::MAX,
        toc.take(4) == seq![0x40u8, 0x55u8, 0x54u8, 0x46u8],
        chunk_stands(a, start, seq![0x43u8, 0x50u8, 0x4bu8, 0x20u8], header, a_header),
        chunk_stands(b, start, seq![0x43u8, 0x50u8, 0x4bu8, 0x20u8], header, b_header),
        header_at(a, start) matches Ok(m) && m.toc_offset > 0 && chunk_stands(
            a,
            start + m.toc_offset,
            seq![0x54u8, 0x4fu8, 0x43u8, 0x20u8],
            toc,
            a_toc,
        ) && chunk_stands(
            b,
            start + m.toc_offset,
            seq![0x54u8, 0x4fu8, 0x43u8, 0x20u8],
            toc,
            b_toc,
        ),
    ensures
        header_at(b, start) == header_at(a, start),
        listing(b, start, header_at(a, start)->Ok_0) == listing(
            a,
            start,
            header_at(a, start)->Ok_0,
        ),
        chunk_at(a, start) == Ok::<(CpkChunkKind, Seq<u8>), ChunkError>(
            (CpkChunkKind::Cpk, header),
        ),
        chunk_at(a, start + header_at(a, start)->Ok_0.toc_offset) == Ok::<
            (CpkChunkKind, Seq<u8>),
            ChunkError,
        >((CpkChunkKind::Toc, toc)),
{
    let cpk = seq![0x43u8, 0x50u8, 0x4bu8, 0x20u8];
    let name = seq![0x54u8, 0x4fu8, 0x43u8, 0x20u8];
    let at = start + header_at(a, start)->Ok_0.toc_offset;
    lemma_chunk_stands(a, start, cpk, header, a_header);
    lemma_chunk_stands(b, start, cpk, header, b_header);
    lemma_chunk_stands(a, at, name, toc, a_toc);
    lemma_chunk_stands(b, at, name, toc, b_toc);
    law_kinds_are_spelled(cpk);
    law_kinds_are_spelled(name);
}

proof fn lemma_chunk_stands(
    stream: Seq<u8>,
    at: int,
    magic: Seq<u8>,
    table: Seq<u8>,
    encrypted: bool,
)
    requires
        0 <= at,
        magic.len() == 4,
        0x20 <= table.len() <= usize::MAX,
        table.take(4) == seq![0x40u8, 0x55u8, 0x54u8, 0x46u8],
        magic == seq![0x43u8, 0x50u8, 0x4bu8, 0x20u8] ==> table.len() + 0x10 <= 0x800,
        chunk_stands(stream, at, magic, table, encrypted),
    ensures
        chunk_at(stream, at) == Ok::<(CpkChunkKind, Seq<u8>), ChunkError>(
            (chunk_kind(magic), table),
        ),
{
    let marker = choose|marker: Seq<u8>|
        marker.len() == 4 && (marker[0] == 0 <==> encrypted) && #[trigger] stands_at(
            stream,
            at,
            magic + marker + le64(table.len() as u64) + stored_table(table, encrypted),
        );
    law_chunks_hold_plain_and_encrypted_tables(stream, at, magic, marker, table);
}

} // verus!
