use cri_archive_lib::cpk::collect::FoundFile;
use cri_archive_lib::cpk::reader::CpkReader;
use cri_archive_lib::cpk::writer::{
    CpkIndexMode, CpkInputFile, CpkRawPayload, CpkWriter, CpkWriterOptions, CpkWriterProfile,
};

fn input(relative: &str, payload: &[u8], id: u32) -> (CpkInputFile, Vec<u8>) {
    let (directory, file_name) = match relative.rfind('/') {
        Some(at) => (relative[..at].to_owned(), relative[at + 1..].to_owned()),
        None => (String::new(), relative.to_owned()),
    };
    let size = u32::try_from(payload.len()).unwrap();
    let file = CpkInputFile {
        directory,
        file_name,
        source_path: format!("input/{relative}"),
        size,
        extract_size: size,
        id,
        user_string: String::new(),
        raw_payload: None,
    };
    (file, payload.to_vec())
}

fn split(inputs: Vec<(CpkInputFile, Vec<u8>)>) -> (Vec<CpkInputFile>, Vec<Vec<u8>>) {
    inputs.into_iter().unzip()
}

fn found(components: &[&str], size: usize) -> FoundFile {
    FoundFile {
        path: format!("input/{}", components.join("/")),
        relative: components.join("/"),
        parent: components[..components.len() - 1].join("/"),
        components: components.iter().map(|part| part.as_bytes().to_vec()).collect(),
        left_out: false,
        size: size as u64,
    }
}

fn profile(index_mode: CpkIndexMode, direct_itoc: bool) -> CpkWriterProfile {
    CpkWriterProfile {
        index_mode,
        direct_itoc,
        ..CpkWriterProfile::default()
    }
}

fn assert_itoc_payloads(archive: &[u8], expected: &[(u32, &[u8])]) {
    let mut reader = CpkReader::new(archive.to_vec());
    let files = reader.get_files().unwrap();
    assert_eq!(files.len(), expected.len());
    let ids = files
        .iter()
        .map(|file| file.id().expect("ITOC row must have an ID"))
        .collect::<Vec<_>>();
    let mut expected_ids = expected.iter().map(|(id, _)| *id).collect::<Vec<_>>();
    expected_ids.sort_unstable();
    assert_eq!(ids, expected_ids);
    for file in &files {
        let id = file.id().unwrap();
        let payload = expected
            .iter()
            .find_map(|(expected_id, payload)| (*expected_id == id).then_some(*payload))
            .expect("unexpected ITOC ID");
        assert_eq!(reader.extract_file(file).unwrap().as_slice(), payload);
    }
}

#[test]
fn toc_writer_reader_roundtrip() {
    let listing = vec![
        found(&["root.bin"], b"root payload".len()),
        found(&["nested", "child.bin"], b"nested payload".len()),
    ];
    let contents = vec![b"root payload".to_vec(), b"nested payload".to_vec()];
    let mut archive_bytes = Vec::new();
    let report = CpkWriter::pack_directory(
        &mut archive_bytes,
        &listing,
        &contents,
        CpkWriterOptions {
            alignment: 0x800,
            ..CpkWriterOptions::default()
        },
    )
    .unwrap();
    assert_eq!(report.files, 2);
    assert_eq!(report.toc_offset, 0x800);
    assert_eq!(report.itoc_offset, 0);
    assert_eq!(report.content_offset % 0x800, 0);
    assert_eq!(report.archive_size % 0x800, 0);

    assert_eq!(&archive_bytes[0x7fa..0x800], b"(c)CRI");
    // Marker and encoding bytes at @UTF +8/+9, big-endian u16 RowsOffset at +0x0a.
    assert_eq!(&archive_bytes[0x18..0x1a], &[0, 1]);
    let header_rows_offset =
        u16::from_be_bytes(archive_bytes[0x1a..0x1c].try_into().unwrap()) as u32 + 8;
    assert!(header_rows_offset < 0x800);

    let mut reader = CpkReader::new(archive_bytes);
    let mut files = reader.get_files().unwrap();
    let metadata = reader.metadata().copied().unwrap();
    assert!(!metadata.sorted);
    assert_eq!(metadata.cpk_mode, 1);
    assert!(metadata.enable_file_name);
    files.sort_by(|a, b| a.file_name().cmp(b.file_name()));
    assert_eq!(files.len(), 2);
    assert_eq!(files[0].directory(), "nested");
    assert_eq!(files[0].file_name(), "child.bin");
    assert_eq!(reader.extract_file(&files[0]).unwrap().as_slice(), b"nested payload");
    assert_eq!(files[1].directory(), "");
    assert_eq!(files[1].file_name(), "root.bin");
    assert_eq!(files[1].user_string(), "");
    assert_eq!(reader.extract_file(&files[1]).unwrap().as_slice(), b"root payload");
}

#[test]
fn standard_itoc_low_only_keeps_both_nested_tables() {
    let (files, sources) = split(vec![
        input("seven.bin", b"seven", 7),
        input("two.bin", b"two", 2),
    ]);
    let mut archive = Vec::new();
    let report = CpkWriter::pack_files_with_profile(
        &mut archive,
        &files,
        &sources,
        CpkWriterOptions::default(),
        &profile(CpkIndexMode::Itoc, false),
    )
    .unwrap();
    assert_eq!(report.toc_offset, 0);
    assert_eq!(report.itoc_offset, 0x800);
    assert_itoc_payloads(&archive, &[(7, b"seven"), (2, b"two")]);

    let mut reader = CpkReader::new(archive);
    let _ = reader.get_files().unwrap();
    let metadata = reader.metadata().copied().unwrap();
    assert_eq!(metadata.cpk_mode, 0);
    assert_eq!(metadata.eid, 0);
    assert!(!metadata.enable_file_name);
}

#[test]
fn standard_itoc_high_only_keeps_both_nested_tables() {
    let payload = vec![0x5a; 70_000];
    let (files, sources) = split(vec![input("large.bin", &payload, 5)]);
    let mut archive = Vec::new();
    CpkWriter::pack_files_with_profile(
        &mut archive,
        &files,
        &sources,
        CpkWriterOptions::default(),
        &profile(CpkIndexMode::Itoc, false),
    )
    .unwrap();
    assert_itoc_payloads(&archive, &[(5, payload.as_slice())]);
}

#[test]
fn standard_itoc_merges_low_and_high_rows_by_id() {
    let large = vec![0x3c; 70_000];
    let (files, sources) = split(vec![
        input("seven.bin", b"seven", 7),
        input("one-large.bin", &large, 1),
        input("two.bin", b"two", 2),
    ]);
    let mut archive = Vec::new();
    CpkWriter::pack_files_with_profile(
        &mut archive,
        &files,
        &sources,
        CpkWriterOptions::default(),
        &profile(CpkIndexMode::Itoc, false),
    )
    .unwrap();

    let mut reader = CpkReader::new(archive);
    let rows = reader.get_files().unwrap();
    let ids = rows
        .iter()
        .map(|file| file.id().expect("ITOC row must have an ID"))
        .collect::<Vec<_>>();
    // Payloads are globally ID-sorted even where narrow and wide rows interleave.
    assert_eq!(ids, vec![1, 2, 7]);
    for file in &rows {
        let expected = match file.id().unwrap() {
            1 => large.as_slice(),
            2 => &b"two"[..],
            7 => &b"seven"[..],
            id => panic!("unexpected ID {id}"),
        };
        assert_eq!(reader.extract_file(file).unwrap().as_slice(), expected);
    }
}

#[test]
fn direct_itoc_is_sorted_by_id_and_uses_eid() {
    let (files, sources) = split(vec![
        input("nine.bin", b"nine", 9),
        input("one.bin", b"one", 1),
        input("four.bin", b"four", 4),
    ]);
    let mut archive = Vec::new();
    CpkWriter::pack_files_with_profile(
        &mut archive,
        &files,
        &sources,
        CpkWriterOptions::default(),
        &profile(CpkIndexMode::Itoc, true),
    )
    .unwrap();
    assert_itoc_payloads(&archive, &[(9, b"nine"), (1, b"one"), (4, b"four")]);

    let mut reader = CpkReader::new(archive);
    let _ = reader.get_files().unwrap();
    assert_eq!(reader.metadata().unwrap().eid, 1);
}

#[test]
fn toc_and_itoc_share_the_same_physical_payload_plan() {
    let large = vec![0xa5; 70_000];
    let (files, sources) = split(vec![
        input("dir/seven.bin", b"seven", 7),
        input("two.bin", b"two", 2),
        input("large/five.bin", &large, 5),
    ]);
    let mut archive = Vec::new();
    let report = CpkWriter::pack_files_with_profile(
        &mut archive,
        &files,
        &sources,
        CpkWriterOptions::default(),
        &profile(CpkIndexMode::TocAndItoc, false),
    )
    .unwrap();
    assert_eq!(report.toc_offset, 0x800);
    assert!(report.itoc_offset > report.toc_offset);

    let mut reader = CpkReader::new(archive);
    let toc_files = reader.get_files().unwrap();
    let metadata = reader.metadata().copied().unwrap();
    assert_eq!(metadata.cpk_mode, 2);
    assert!(metadata.enable_file_name);
    assert_eq!(metadata.eid, 0);
    for file in &toc_files {
        let expected = match file.id().unwrap() {
            2 => &b"two"[..],
            5 => large.as_slice(),
            7 => &b"seven"[..],
            id => panic!("unexpected ID {id}"),
        };
        assert_eq!(reader.extract_file(file).unwrap().as_slice(), expected);
    }
}

#[test]
fn raw_entry_reuse_still_rebuilds_the_container() {
    let (source_files, sources) = split(vec![input("payload.bin", b"raw payload", 3)]);
    let mut source_archive = Vec::new();
    CpkWriter::pack_files_with_profile(
        &mut source_archive,
        &source_files,
        &sources,
        CpkWriterOptions::default(),
        &profile(CpkIndexMode::Toc, false),
    )
    .unwrap();

    let mut reader = CpkReader::new(source_archive.clone());
    let source_rows = reader.get_files().unwrap();
    let source_row = source_rows.first().expect("missing TOC row");
    let source_offset = source_row.absolute_offset();
    let source_size = source_row.file_size();

    let reused = CpkInputFile {
        directory: String::new(),
        file_name: "payload.bin".to_owned(),
        source_path: "input/payload.bin".to_owned(),
        size: source_size,
        extract_size: source_row.extract_size(),
        id: source_row.id().unwrap_or(3),
        user_string: source_row.user_string().to_owned(),
        raw_payload: Some(CpkRawPayload {
            archive_path: "source.cpk".to_owned(),
            absolute_offset: source_offset,
            size: source_size,
        }),
    };
    let mut rebuilt_profile = profile(CpkIndexMode::Toc, false);
    rebuilt_profile.comment = "container rebuilt around a raw entry".to_owned();
    let mut rebuilt_archive = Vec::new();
    CpkWriter::pack_files_with_profile(
        &mut rebuilt_archive,
        &[reused],
        &vec![source_archive.clone()],
        CpkWriterOptions {
            alignment: 0x400,
            ..CpkWriterOptions::default()
        },
        &rebuilt_profile,
    )
    .unwrap();

    assert_ne!(source_archive, rebuilt_archive, "raw reuse must not copy the archive");

    let mut rebuilt_reader = CpkReader::new(rebuilt_archive);
    let rebuilt_rows = rebuilt_reader.get_files().unwrap();
    assert_eq!(rebuilt_rows.len(), 1);
    assert_eq!(
        rebuilt_reader.extract_file(&rebuilt_rows[0]).unwrap().as_slice(),
        b"raw payload"
    );
}
