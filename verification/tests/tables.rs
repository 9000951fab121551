use cri_archive_lib::cpk::encrypt::table::TableDecryptor;
use cri_archive_lib::cpk::header::{
    row_value_to_u64, ChunkError, CpkChunkKind, HighTable, TableContainer,
};
use cri_archive_lib::cpk::index::build_chunk;
use cri_archive_lib::cpk::utf::{UtfColumn, UtfTableBuilder, UtfType, UtfValue};
use cri_archive_lib::schema::columns::{Column, ColumnFlag, ColumnType};
use cri_archive_lib::schema::error::TableError;
use cri_archive_lib::schema::header::{StringEncoding, TableHeader, HEADER_SIZE};
use cri_archive_lib::schema::rows::{Row, RowValue};
use cri_archive_lib::schema::strings::{StringPool, StringPoolFast, StringPoolImpl};

fn sample_columns() -> Vec<UtfColumn> {
    vec![
        UtfColumn::new("Short", UtfType::UInt16),
        UtfColumn::new("Word", UtfType::UInt32),
        UtfColumn::new("Long", UtfType::UInt64),
        UtfColumn::new("Name", UtfType::String),
        UtfColumn::new("Blob", UtfType::Data),
    ]
}

fn sample_row(short: u16, name: &str, blob: &[u8]) -> Vec<UtfValue> {
    vec![
        UtfValue::UInt16(short),
        UtfValue::UInt32(0x01020304),
        UtfValue::UInt64(0x0102030405060708),
        UtfValue::String(name.to_owned()),
        UtfValue::Data(blob.to_vec()),
    ]
}

fn sample() -> Vec<u8> {
    UtfTableBuilder::new(
        "Sample",
        sample_columns(),
        vec![sample_row(7, "first", b"abc"), sample_row(9, "", b"")],
    )
    .build()
    .unwrap()
}

/// A table with one column, nameless and of this flag byte, with this schema
/// tail, these rows and this string pool.
fn raw_table(
    flag: u8,
    tail: &[u8],
    encoding: u8,
    row_size: u16,
    rows: u32,
    row_bytes: &[u8],
    pool: &[u8],
) -> Vec<u8> {
    let rows_at = HEADER_SIZE + 1 + tail.len();
    let strings_at = rows_at + row_bytes.len();
    let data_at = strings_at + pool.len();
    let mut table = b"@UTF".to_vec();
    table.extend_from_slice(&((data_at - 8) as u32).to_be_bytes());
    table.push(0);
    table.push(encoding);
    table.extend_from_slice(&((rows_at - 8) as u16).to_be_bytes());
    table.extend_from_slice(&((strings_at - 8) as u32).to_be_bytes());
    table.extend_from_slice(&((data_at - 8) as u32).to_be_bytes());
    table.extend_from_slice(&0u32.to_be_bytes());
    table.extend_from_slice(&1u16.to_be_bytes());
    table.extend_from_slice(&row_size.to_be_bytes());
    table.extend_from_slice(&rows.to_be_bytes());
    table.push(flag);
    table.extend_from_slice(tail);
    table.extend_from_slice(row_bytes);
    table.extend_from_slice(pool);
    table
}

fn table_error(bytes: Vec<u8>) -> TableError {
    match HighTable::new(bytes) {
        Ok(_) => panic!("the table was accepted"),
        Err(e) => e,
    }
}

#[test]
fn built_table_has_the_engine_header() {
    let bytes = sample();
    assert_eq!(&bytes[0..4], b"@UTF");
    let header = TableHeader::new(&bytes);
    assert_eq!(header.size() as usize, bytes.len() - 8);
    assert_eq!(header.encoding(), StringEncoding::UTF8);
    assert_eq!(header.column_count(), 5);
    assert_eq!(header.row_size(), 26);
    assert_eq!(header.row_count(), 2);
    assert_eq!(header.rows_offset(), 0x20 + 5 * 5);
    assert_eq!(header.string_pool_offset(), 0x20 + 5 * 5 + 2 * 26);
    assert_eq!(header.data_pool_offset() as usize, bytes.len() - 3);
}

#[test]
fn built_table_reads_back() {
    let table = HighTable::new(sample()).unwrap();
    assert_eq!(table.row_count(), 2);
    assert_eq!(table.get_rows().len(), 2);
    assert_eq!(table.column_index("Short"), Some(0));
    assert_eq!(table.column_index("Blob"), Some(4));
    assert_eq!(table.column_index("Missing"), None);
    assert_eq!(table.value(0, 0), Some(&RowValue::UInt16(7)));
    assert_eq!(table.value(1, 0), Some(&RowValue::UInt16(9)));
    assert_eq!(table.value(2, 0), None);
    assert_eq!(table.value(0, 5), None);
    assert_eq!(table.u64_by_name(0, "Word"), Some(0x01020304));
    assert_eq!(table.u64_by_name(0, "Long"), Some(0x0102030405060708));
    assert_eq!(table.u64_by_name(0, "Name"), None);
    assert_eq!(table.data_by_name(0, "Blob"), Some(b"abc".as_slice()));
    assert_eq!(table.data_by_name(1, "Blob"), None);
    match table.value_by_name(0, "Name") {
        Some(RowValue::String(offset)) => {
            assert_eq!(table.get_strings().get_string(*offset), Some("first"));
        }
        other => panic!("unexpected {other:?}"),
    }
}

#[test]
fn equal_texts_share_one_place_in_the_pool() {
    let bytes = UtfTableBuilder::new(
        "T",
        vec![UtfColumn::new("A", UtfType::String), UtfColumn::new("B", UtfType::String)],
        vec![vec![UtfValue::String("x".to_owned()), UtfValue::String("x".to_owned())]],
    )
    .build()
    .unwrap();
    let header = TableHeader::new(&bytes);
    let pool = &bytes[header.string_pool_offset() as usize..header.data_pool_offset() as usize];
    assert_eq!(pool, b"\0T\0A\0B\0x\0");
}

#[test]
fn builder_refuses_a_value_of_another_type() {
    let result = UtfTableBuilder::new(
        "T",
        vec![UtfColumn::new("A", UtfType::UInt16)],
        vec![vec![UtfValue::UInt32(1)]],
    )
    .build();
    assert_eq!(result.unwrap_err().message(), "CPK size calculation overflowed");
}

#[test]
fn columns_are_listed_with_their_flags() {
    let bytes = sample();
    let header = TableHeader::new(&bytes);
    let (columns, end) = Column::new_list(&bytes, &header).unwrap();
    assert_eq!(columns.len(), 5);
    assert_eq!(end as u64, header.rows_offset());
    let pool = StringPoolImpl::new(&bytes, &header).unwrap();
    let fast = StringPoolFast::new(&bytes, &header).unwrap();
    let names = ["Short", "Word", "Long", "Name", "Blob"];
    let kinds = [
        ColumnType::UInt16,
        ColumnType::UInt32,
        ColumnType::UInt64,
        ColumnType::String,
        ColumnType::Data,
    ];
    for (i, column) in columns.iter().enumerate() {
        let flags = column.get_value().get_flags();
        assert!(flags.contains(ColumnFlag::NAME));
        assert!(flags.contains(ColumnFlag::ROW_STORAGE));
        assert!(!flags.contains(ColumnFlag::DEFAULT_VALUE));
        assert_eq!(column.get_value().get_type(), kinds[i]);
        assert_eq!(column.get_default_value(), None);
        assert_eq!(pool.get_string(column.get_string_offset()), Some(names[i]));
        assert_eq!(fast.get_string(column.get_string_offset()), Some(names[i]));
    }
    assert_eq!(Row::schema_width(&columns), 26);
    assert_eq!(ColumnType::Guid.get_size(), 16);
    assert_eq!(ColumnType::Invalid.get_size(), 0);
    assert_eq!(pool.get_string(1), Some("Sample"));
    assert_eq!(pool.get_string(2), None);
}

#[test]
fn columns_of_short_tables_are_refused() {
    let bytes = sample();
    let mut header = TableHeader::new(&bytes);
    assert_eq!(Column::new_list(&bytes[..10], &header).unwrap_err(), TableError::UnexpectedEof);
    assert_eq!(Column::new_list(&bytes[..0x23], &header).unwrap_err(), TableError::UnexpectedEof);
    header.columns_field = 0;
    let (columns, end) = Column::new_list(&[], &header).unwrap();
    assert!(columns.is_empty());
    assert_eq!(end, HEADER_SIZE);
}

#[test]
fn default_values_stand_in_every_row() {
    let table = raw_table(0x20 | 2, &[0x12, 0x34], 1, 0, 3, &[], b"\0");
    let header = TableHeader::new(&table);
    let (columns, _) = Column::new_list(&table, &header).unwrap();
    assert_eq!(columns[0].get_default_value(), Some(&RowValue::UInt16(0x1234)));
    assert_eq!(columns[0].get_string_offset(), u32::MAX);
    let table = HighTable::new(table).unwrap();
    assert_eq!(table.row_count(), 3);
    for row in 0..3 {
        assert_eq!(table.value(row, 0), Some(&RowValue::UInt16(0x1234)));
    }
}

#[test]
fn row_values_of_every_type_are_read() {
    let stored: [u8; 16] = [0xff, 0xfe, 0xfd, 0xfc, 0xfb, 0xfa, 0xf9, 0xf8, 1, 2, 3, 4, 5, 6, 7, 8];
    let cases: [(u8, usize, RowValue); 10] = [
        (0, 1, RowValue::Byte(0xff)),
        (1, 1, RowValue::SByte(-1)),
        (2, 2, RowValue::UInt16(0xfffe)),
        (3, 2, RowValue::Int16(-2)),
        (4, 4, RowValue::UInt32(0xfffefdfc)),
        (5, 4, RowValue::Int32(-66052)),
        (6, 8, RowValue::UInt64(0xfffefdfcfbfaf9f8)),
        (7, 8, RowValue::Int64(-283686952306184)),
        (9, 8, RowValue::Double(0xfffefdfcfbfaf9f8)),
        (12, 16, RowValue::Guid(0xfffefdfcfbfaf9f8, 0x0102030405060708)),
    ];
    for (code, width, expected) in cases {
        let table = raw_table(0x40 | code, &[], 1, width as u16, 1, &stored[..width], b"\0");
        let table = HighTable::new(table).unwrap();
        assert_eq!(table.value(0, 0), Some(&expected));
    }
}

#[test]
fn row_values_are_numbers_where_they_are_not_negative() {
    assert_eq!(row_value_to_u64(&RowValue::Byte(5)), Some(5));
    assert_eq!(row_value_to_u64(&RowValue::UInt64(u64::MAX)), Some(u64::MAX));
    assert_eq!(row_value_to_u64(&RowValue::Int32(7)), Some(7));
    assert_eq!(row_value_to_u64(&RowValue::Int32(-7)), None);
    assert_eq!(row_value_to_u64(&RowValue::Absent), None);
    assert_eq!(row_value_to_u64(&RowValue::String(1)), None);
}

#[test]
fn shift_jis_pools_are_decoded() {
    // "テスト" in Shift-JIS.
    let pool = [0u8, 0x83, 0x65, 0x83, 0x58, 0x83, 0x67, 0];
    let table = HighTable::new(raw_table(0x40 | 2, &[], 0, 2, 1, &[0, 1], &pool)).unwrap();
    assert_eq!(table.get_strings().get_string(1), Some("テスト"));
    assert_eq!(table.get_strings().get_string(0), Some(""));
}

#[test]
fn byte_order_marks_choose_the_encoding_of_shift_jis_strings() {
    let strings: [(&[u8], &str); 6] = [
        (b"plain", "plain"),
        (b"a\x83\x65", "aテ"),
        (b"a\x83", "a\u{fffd}"),
        (b"\xef\xbb\xbf\xe3\x83\x86", "テ"),
        (b"\xef\xbb\xbf\xe3\x83", "\u{fffd}"),
        (b"\xff\xfe\xc6\x30\xb9\x30", "テス"),
    ];
    let mut pool = vec![0u8];
    let mut offsets = Vec::new();
    for (bytes, _) in strings {
        offsets.push(pool.len() as u32);
        pool.extend_from_slice(bytes);
        pool.push(0);
    }
    let table = HighTable::new(raw_table(0x40 | 2, &[], 0, 2, 1, &[0, 1], &pool)).unwrap();
    for (offset, (_, text)) in offsets.into_iter().zip(strings) {
        assert_eq!(table.get_strings().get_string(offset), Some(text));
    }
}

#[test]
fn utf8_pools_are_decoded() {
    let table =
        HighTable::new(raw_table(0x40 | 2, &[], 1, 2, 1, &[0, 1], "\0テスト\0".as_bytes())).unwrap();
    assert_eq!(table.get_strings().get_string(1), Some("テスト"));
}

#[test]
fn broken_tables_are_refused() {
    let good = sample();
    assert_eq!(table_error(b"@UTF".to_vec()), TableError::InvalidTable);
    let mut other = good.clone();
    other[0] = b'#';
    assert_eq!(table_error(other), TableError::InvalidTable);
    let mut short = good.clone();
    short.pop();
    let error = table_error(short);
    assert_eq!(
        error,
        TableError::Truncated { declared: good.len() as u64, available: good.len() as u64 - 1 }
    );
    assert_eq!(
        error.message(),
        format!(
            "truncated @UTF table: header declares {:#x}, buffer has {:#x}",
            good.len(),
            good.len() - 1
        )
    );
    let mut sections = good.clone();
    sections[0xa] = 0xff;
    assert_eq!(table_error(sections), TableError::InvalidSectionOffsets);
    let mut rows = good.clone();
    rows[0x1f] = 200;
    assert_eq!(table_error(rows), TableError::RowsOverlapStrings);
    let mut wide = good.clone();
    wide[0x1b] = 25;
    assert_eq!(table_error(wide), TableError::RowSchemaTooWide);
    let mut columns = good.clone();
    columns[0x19] = 6;
    assert_eq!(table_error(columns), TableError::ColumnsOverlapRows);
    assert_eq!(
        table_error(raw_table(0x20 | 0xf, &[], 1, 0, 0, &[], b"\0")),
        TableError::UnsupportedColumnType
    );
    assert_eq!(
        table_error(raw_table(0x40 | 2, &[], 1, 2, 1, &[0, 1], b"\0abc")),
        TableError::UnterminatedString
    );
    assert_eq!(
        table_error(raw_table(0x40 | 2, &[], 1, 2, 1, &[0, 1], &[0xff, 0])),
        TableError::InvalidUtf8
    );
    assert_eq!(TableError::InvalidTable.message(), "invalid or truncated @UTF table");
    assert_eq!(TableError::RowsOverlapStrings.message(), "@UTF rows overlap the string pool");
}

#[test]
fn pool_offsets_out_of_order_are_refused() {
    let bytes = sample();
    let mut header = TableHeader::new(&bytes);
    header.data_field = header.strings_field - 1;
    assert_eq!(
        StringPoolFast::new(&bytes, &header).unwrap_err(),
        TableError::InvalidPoolOffsets
    );
    header.data_field = bytes.len() as u32;
    assert_eq!(StringPoolImpl::new(&bytes, &header).unwrap_err(), TableError::UnexpectedEof);
}

#[test]
fn table_cipher_undoes_itself() {
    let plain = sample();
    assert!(!TableDecryptor::is_encrypted(&plain));
    let hidden = TableDecryptor::decrypt_utf(&plain);
    assert_eq!(&hidden[..4], &[0x1f, 0x9e, 0xf3, 0xf5]);
    assert!(TableDecryptor::is_encrypted(&hidden));
    let mut again = hidden.clone();
    TableDecryptor::decrypt_utf_in_place(&mut again);
    assert_eq!(again, plain);
}

#[test]
fn chunks_hold_plain_and_encrypted_tables() {
    let plain = sample();
    let chunk = build_chunk(CpkChunkKind::Toc, &plain);
    assert_eq!(&chunk[..8], b"TOC \xff\xff\xff\xff".as_slice());
    assert_eq!(&chunk[8..16], &(plain.len() as u64).to_le_bytes());
    let container = TableContainer::new(&chunk, 0).unwrap();
    assert_eq!(container.kind(), CpkChunkKind::Toc);
    assert_eq!(container.into_table(), plain);

    let mut hidden = chunk.clone();
    hidden[4] = 0;
    TableDecryptor::decrypt_utf_in_place(&mut hidden[16..]);
    let container = TableContainer::new(&hidden, 0).unwrap();
    assert_eq!(container.into_table(), plain);
}

#[test]
fn chunk_kinds_are_told_by_their_magic() {
    for kind in [
        CpkChunkKind::Cpk,
        CpkChunkKind::Toc,
        CpkChunkKind::Itoc,
        CpkChunkKind::Etoc,
        CpkChunkKind::Gtoc,
        CpkChunkKind::Unknown(*b"ABCD"),
    ] {
        assert_eq!(CpkChunkKind::from_magic(kind.magic()), kind);
    }
    assert_eq!(&CpkChunkKind::Cpk.magic(), b"CPK ");
    assert_eq!(&CpkChunkKind::Gtoc.magic(), b"GTOC");
}

fn chunk_error(bytes: &[u8]) -> ChunkError {
    match TableContainer::new(bytes, 0) {
        Ok(_) => panic!("the chunk was accepted"),
        Err(e) => e,
    }
}

#[test]
fn broken_chunks_are_refused() {
    let chunk = build_chunk(CpkChunkKind::Itoc, &sample());
    assert_eq!(chunk_error(&chunk[..15]).message(), "failed to fill whole buffer");
    assert!(matches!(TableContainer::new(&chunk, u64::MAX), Err(ChunkError::UnexpectedEof)));

    let mut small = chunk.clone();
    small[8..16].copy_from_slice(&31u64.to_le_bytes());
    assert_eq!(chunk_error(&small).message(), "invalid Itoc table size: 0x1f");

    let truncated = chunk_error(&chunk[..chunk.len() - 1]);
    assert_eq!(
        truncated.message(),
        format!(
            "truncated Itoc table: declares {:#x} bytes, only {:#x} remain",
            chunk.len() - 16,
            chunk.len() - 17
        )
    );

    let mut header = build_chunk(CpkChunkKind::Cpk, &sample());
    header[8..16].copy_from_slice(&0x7f1u64.to_le_bytes());
    assert_eq!(
        chunk_error(&header).message(),
        "CPK header exceeds the engine's 0x800-byte header area: 0x7f1"
    );

    let mut unsigned = chunk.clone();
    unsigned[16] = b'#';
    unsigned[0..4].copy_from_slice(b"ABCD");
    assert_eq!(
        chunk_error(&unsigned).message(),
        "Unknown([65, 66, 67, 68]) chunk does not contain a valid @UTF table"
    );
}
