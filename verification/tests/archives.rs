use cri_archive_lib::cpk::collect::{collect_files, FoundFile};
use cri_archive_lib::cpk::compress::{DummyDecompressor, FileDecompressor};
use cri_archive_lib::cpk::encrypt::data::{DummyDecryptor, FileDecryptor};
use cri_archive_lib::cpk::encrypt::table::TableDecryptor;
use cri_archive_lib::cpk::file::{CpkFile, CpkFileView};
use cri_archive_lib::cpk::header::CpkChunkKind;
use cri_archive_lib::cpk::index::{build_chunk, build_itoc_rows, build_itoc_table};
use cri_archive_lib::cpk::layout::{build_physical_order, WriteStep};
use cri_archive_lib::cpk::reader::{CpkReader, CpkReaderError};
use cri_archive_lib::cpk::utf::{UtfColumn, UtfTableBuilder, UtfType, UtfValue};
use cri_archive_lib::cpk::writer::{
    check_payload, packed_payload, payload_action, CpkIndexMode, CpkInputFile, CpkRawPayload,
    CpkWriteReport, CpkWriter, CpkWriterError, CpkWriterOptions, CpkWriterProfile, PayloadAction,
};
use cri_archive_lib::utils::align::{is_power_of_two, pad_up, round_up};
use cri_archive_lib::utils::sort::stable_order;

fn file(directory: &str, file_name: &str, size: u32, id: u32) -> CpkInputFile {
    CpkInputFile {
        directory: directory.to_owned(),
        file_name: file_name.to_owned(),
        source_path: format!("in/{directory}/{file_name}"),
        size,
        extract_size: size,
        id,
        user_string: String::new(),
        raw_payload: None,
    }
}

fn options(alignment: u16) -> CpkWriterOptions {
    CpkWriterOptions { alignment, p5r_encryption: false }
}

fn profile(index_mode: CpkIndexMode, direct_itoc: bool) -> CpkWriterProfile {
    CpkWriterProfile { index_mode, direct_itoc, ..CpkWriterProfile::default() }
}

fn pack(
    files: &[CpkInputFile],
    sources: &Vec<Vec<u8>>,
    alignment: u16,
    profile: &CpkWriterProfile,
) -> Result<(Vec<u8>, CpkWriteReport), CpkWriterError> {
    let mut output = Vec::new();
    let report =
        CpkWriter::pack_files_with_profile(&mut output, files, sources, options(alignment), profile)?;
    Ok((output, report))
}

fn pack_error(
    files: &[CpkInputFile],
    sources: &Vec<Vec<u8>>,
    alignment: u16,
    profile: &CpkWriterProfile,
) -> String {
    match pack(files, sources, alignment, profile) {
        Ok(_) => panic!("the archive was written"),
        Err(e) => e.message(),
    }
}

fn listed(path: &str, size: u64) -> FoundFile {
    let components: Vec<Vec<u8>> = path.split('/').map(|part| part.as_bytes().to_vec()).collect();
    let parent = match path.rfind('/') {
        Some(at) => path[..at].to_owned(),
        None => String::new(),
    };
    FoundFile {
        path: format!("in/{path}"),
        relative: path.to_owned(),
        parent,
        components,
        left_out: false,
        size,
    }
}

/// Inverts some bits of every byte of files marked for it.
struct Inverter;

impl FileDecryptor for Inverter {
    fn marks(_file: CpkFileView, _data: vstd::seq::Seq<u8>) -> bool {
        unreachable!()
    }

    fn transformed(_data: vstd::seq::Seq<u8>) -> vstd::seq::Seq<u8> {
        unreachable!()
    }

    fn is_encrypted(file: &CpkFile, _data: &Vec<u8>) -> bool {
        file.user_string() == "CRI_CFATTR:ENCRYPT"
    }

    fn decrypt_in_place(data: &mut Vec<u8>) {
        for byte in data.iter_mut() {
            *byte ^= 0x55;
        }
    }
}

/// Bytes behind a `0x5a` stand twice in the extracted file.
struct Doubler;

impl FileDecompressor for Doubler {
    fn recognises(_data: vstd::seq::Seq<u8>) -> bool {
        unreachable!()
    }

    fn decompressed(_data: vstd::seq::Seq<u8>) -> vstd::seq::Seq<u8> {
        unreachable!()
    }

    fn is_compressed(data: &Vec<u8>) -> bool {
        data.first() == Some(&0x5a)
    }

    fn decompress(data: &Vec<u8>) -> Vec<u8> {
        let mut output = data[1..].to_vec();
        output.extend_from_slice(&data[1..]);
        output
    }
}

#[test]
fn offsets_are_rounded_up() {
    assert_eq!(round_up(0, 0x800), Some(0));
    assert_eq!(round_up(1, 0x800), Some(0x800));
    assert_eq!(round_up(0x800, 0x800), Some(0x800));
    assert_eq!(round_up(0x801, 0x800), Some(0x1000));
    assert_eq!(round_up(5, 3), Some(6));
    assert_eq!(round_up(u64::MAX, 2), None);
    assert_eq!(pad_up(0x801, 0x800), Some(0x1000));
    assert_eq!(pad_up(0x801, 0), Some(0x801));
    assert_eq!(pad_up(u64::MAX, 2), None);
    assert!(is_power_of_two(1));
    assert!(is_power_of_two(0x8000));
    assert!(!is_power_of_two(0));
    assert!(!is_power_of_two(0x801));
}

#[test]
fn sorting_is_stable() {
    assert_eq!(stable_order(&vec![3u32, 1, 2, 1, 3, 0]), vec![5, 1, 3, 2, 0, 4]);
    assert_eq!(stable_order(&vec![vec![1u16, 2], vec![1], vec![0, 9]]), vec![2, 1, 0]);
    assert_eq!(stable_order::<u32>(&Vec::new()), Vec::<usize>::new());
}

#[test]
fn defaults_are_those_of_a_new_archive() {
    let profile = CpkWriterProfile::default();
    assert_eq!(profile.index_mode, CpkIndexMode::Toc);
    assert!(!profile.direct_itoc);
    assert_eq!((profile.version, profile.revision), (7, 0));
    let options = CpkWriterOptions::default();
    assert_eq!(options.alignment, 0x800);
    assert!(!options.p5r_encryption);
    assert_eq!(CpkIndexMode::Itoc.cpk_mode(), 0);
    assert_eq!(CpkIndexMode::Toc.cpk_mode(), 1);
    assert_eq!(CpkIndexMode::TocAndItoc.cpk_mode(), 2);
}

#[test]
fn refused_inputs_are_told() {
    let one = vec![file("", "a", 1, 0)];
    let source = vec![vec![1]];
    let toc = profile(CpkIndexMode::Toc, false);
    let itoc = profile(CpkIndexMode::Itoc, false);
    assert_eq!(
        pack_error(&one, &source, 3, &toc),
        "alignment must be a power of two in 1..=65535, got 3"
    );
    assert_eq!(pack_error(&[], &vec![], 0x800, &toc), "input directory contains no files");
    assert_eq!(
        pack_error(&[file("", "a", 1, 0x1_0000)], &source, 0x800, &itoc),
        "ITOC IDs are 16-bit in the target engine, got 65536"
    );
    assert_eq!(
        pack_error(
            &[file("", "a", 1, 4), file("", "b", 1, 4)],
            &vec![vec![1], vec![2]],
            0x800,
            &itoc
        ),
        "duplicate ITOC ID: 4"
    );
    assert_eq!(
        pack_error(&one, &vec![vec![1, 2]], 0x800, &toc),
        "in//a changed packed size while packing (expected 1, wrote 2)"
    );
    let mut long = profile(CpkIndexMode::Toc, false);
    long.comment = "x".repeat(0x800);
    assert!(pack_error(&one, &source, 0x800, &long).starts_with("CPK header does not fit before 0x800 (0x"));
}

#[test]
fn packing_that_fails_leaves_what_was_written() {
    let files = vec![file("", "a", 3, 0), file("", "b", 2, 1)];
    let good = vec![vec![1, 2, 3], vec![4, 5]];
    let (archive, report) = pack(&files, &good, 0x10, &profile(CpkIndexMode::Toc, false)).unwrap();
    let second = report.content_offset as usize + 0x10;
    let mut expected = archive[..second].to_vec();
    expected.extend_from_slice(&[7, 8, 9]);
    let bad = vec![vec![1, 2, 3], vec![7, 8, 9]];

    let mut packed = vec![9; 0x10000];
    assert!(CpkWriter::pack_files(&mut packed, &files, &bad, options(0x10)).is_err());
    assert_eq!(packed, expected);

    let mut output = vec![9; 0x10000];
    assert!(CpkWriter::write(&mut output, &files, &bad, options(0x10)).is_err());
    assert_eq!(&output[..expected.len()], expected.as_slice());
    assert!(output[expected.len()..].iter().all(|byte| *byte == 9));
    assert_eq!(output.len(), 0x10000);
}

#[test]
fn an_archive_that_cannot_be_laid_out_is_not_begun() {
    let files = vec![file("", "a", 1, 0)];
    let sources = vec![vec![1]];
    let mut packed = vec![9, 9];
    assert!(CpkWriter::pack_files(&mut packed, &files, &sources, options(3)).is_err());
    assert!(packed.is_empty());
    let mut output = vec![9, 9];
    assert!(CpkWriter::write(&mut output, &files, &sources, options(3)).is_err());
    assert_eq!(output, vec![9, 9]);
    let mut directory = vec![9, 9];
    for (listing, alignment) in [(vec![], 0x10), (vec![listed("a", 1)], 3)] {
        let contents = vec![vec![1]; listing.len()];
        let result =
            CpkWriter::pack_directory(&mut directory, &listing, &contents, options(alignment));
        assert!(result.is_err());
        assert_eq!(directory, vec![9, 9]);
    }
}

#[test]
fn ids_do_not_depend_on_the_order_of_the_listing() {
    let names = ["a.bin", "A.bin", "d/x", "D/x", "d\\x", "b.bin"];
    let mut first: Option<(Vec<(String, String, u32)>, Vec<u8>)> = None;
    for turn in 0..names.len() {
        let mut order: Vec<&str> = names.to_vec();
        order.rotate_left(turn);
        if turn % 2 == 1 {
            order.reverse();
        }
        let listing: Vec<FoundFile> =
            order.iter().map(|name| listed(name, name.len() as u64)).collect();
        let (files, _) = collect_files(&listing).unwrap();
        let rows: Vec<(String, String, u32)> =
            files.into_iter().map(|f| (f.directory, f.file_name, f.id)).collect();
        let contents: Vec<Vec<u8>> = order.iter().map(|name| name.as_bytes().to_vec()).collect();
        let mut archive = Vec::new();
        CpkWriter::pack_directory(&mut archive, &listing, &contents, options(0x10)).unwrap();
        let found = (rows, archive);
        match &first {
            None => first = Some(found),
            Some(expected) => assert_eq!(&found, expected),
        }
    }
    let (rows, _) = first.unwrap();
    let paths: Vec<String> = rows.iter().map(|(d, f, _)| format!("{d}|{f}")).collect();
    assert_eq!(paths, vec!["|A.bin", "|a.bin", "|b.bin", "|d\\x", "D|x", "d|x"]);
    assert_eq!(rows.iter().map(|row| row.2).collect::<Vec<u32>>(), vec![0, 1, 2, 3, 4, 5]);
}

#[test]
fn texts_are_read_up_to_their_first_nul() {
    let mut cut = file("di\0r", "na\0me", 1, 0);
    cut.user_string = "\0hidden".to_owned();
    let plain = file("dir", "name", 1, 1);
    let mut odd = profile(CpkIndexMode::TocAndItoc, false);
    odd.comment = "a\0b".to_owned();
    odd.tvers = "\0".to_owned();
    let (archive, _) = pack(&[cut, plain], &vec![vec![1], vec![2]], 0x10, &odd).unwrap();
    let mut reader = CpkReader::new(archive);
    let files = reader.get_files().unwrap();
    assert_eq!((files[0].directory(), files[0].file_name()), ("di", "na"));
    assert_eq!(files[0].user_string(), "");
    assert_eq!((files[1].directory(), files[1].file_name()), ("dir", "name"));
    assert_eq!(reader.extract_file(&files[0]).unwrap(), vec![1]);
    assert_eq!(reader.extract_file(&files[1]).unwrap(), vec![2]);
    assert_eq!(
        reader.metadata().unwrap().content_offset as usize,
        files[0].absolute_offset() as usize
    );
}

#[test]
fn rows_of_ids_are_refused_where_they_do_not_fit() {
    let files = vec![file("", "a", 5, 7), file("", "b", 0x1_0000, 8), file("", "c", 1, 0x1_0000)];
    assert!(build_itoc_rows(&files, &vec![0], true, "T").is_ok());
    assert!(build_itoc_rows(&files, &vec![0, 1], false, "T").is_ok());
    assert_eq!(
        build_itoc_rows(&files, &vec![0, 1], true, "T").unwrap_err().message(),
        "CPK size calculation overflowed"
    );
    assert_eq!(
        build_itoc_rows(&files, &vec![2, 1], true, "T").unwrap_err().message(),
        "ITOC IDs are 16-bit in the target engine, got 65536"
    );
    for direct in [false, true] {
        assert!(build_itoc_table(&files, &vec![0, 1], direct).is_ok());
        assert_eq!(
            build_itoc_table(&files, &vec![0, 1, 2], direct).unwrap_err().message(),
            "ITOC IDs are 16-bit in the target engine, got 65536"
        );
    }
}

#[test]
fn writing_keeps_what_stands_behind_the_archive() {
    let files = vec![file("", "a", 1, 0)];
    let sources = vec![vec![7]];
    let (archive, _) = pack(&files, &sources, 0x800, &profile(CpkIndexMode::Toc, false)).unwrap();
    let mut output = vec![0xaa; archive.len() + 3];
    CpkWriter::write(&mut output, &files, &sources, options(0x800)).unwrap();
    assert_eq!(&output[..archive.len()], archive.as_slice());
    assert_eq!(&output[archive.len()..], &[0xaa, 0xaa, 0xaa]);
}

#[test]
fn listing_is_sorted_as_the_engine_compares_paths() {
    let mut output_file = listed("out.cpk", 5);
    output_file.left_out = true;
    let listing = vec![
        listed("b.bin", 1),
        listed("A/z.bin", 2),
        listed("a/B.bin", 3),
        output_file,
        listed("sub/.cri-cpk-manifest-v2", 4),
        listed("a.bin", 5),
        listed(".cri-cpk-manifest-v1", 6),
    ];
    let (files, positions) = collect_files(&listing).unwrap();
    let names: Vec<(String, String, u32)> =
        files.iter().map(|f| (f.directory.clone(), f.file_name.clone(), f.id)).collect();
    assert_eq!(
        names,
        vec![
            ("".to_owned(), "a.bin".to_owned(), 0),
            ("a".to_owned(), "B.bin".to_owned(), 1),
            ("A".to_owned(), "z.bin".to_owned(), 2),
            ("".to_owned(), "b.bin".to_owned(), 3),
        ]
    );
    assert_eq!(positions, vec![5, 2, 1, 0]);
    assert_eq!(files[1].source_path, "in/a/B.bin");
}

#[test]
fn paths_that_are_no_text_are_refused() {
    let mut name = listed("d/x", 1);
    name.components[1] = vec![0xff];
    assert_eq!(
        collect_files(&vec![name]).unwrap_err().message(),
        "path is not valid UTF-8: in/d/x"
    );
    let mut directory = listed("d/x", 1);
    directory.components[0] = vec![0xff];
    assert_eq!(
        collect_files(&vec![directory]).unwrap_err().message(),
        "path is not valid UTF-8: d"
    );
    assert_eq!(
        collect_files(&vec![listed("big", 0x1_0000_0000)]).unwrap_err().message(),
        "in/big is too large for a CPK FileSize field (4294967296 bytes)"
    );
}

#[test]
fn directories_pack_with_the_default_profile() {
    let listing = vec![listed("テスト/b.bin", 2), listed("a.bin", 1)];
    let mut output = Vec::new();
    let report = CpkWriter::pack_directory(
        &mut output,
        &listing,
        &vec![vec![1, 2], vec![3]],
        options(0x20),
    )
    .unwrap();
    assert_eq!(report.files, 2);
    assert_eq!(report.archive_size as usize, output.len());
    let mut reader = CpkReader::new(output);
    let files = reader.get_files().unwrap();
    assert_eq!(files[0].file_name(), "a.bin");
    assert_eq!(files[1].directory(), "テスト");
    assert_eq!(reader.extract_file(&files[1]).unwrap(), vec![1, 2]);
    assert_eq!(
        CpkWriter::pack_directory(&mut Vec::new(), &listing, &vec![vec![], vec![]], options(0))
            .unwrap_err()
            .message(),
        "alignment must be a power of two in 1..=65535, got 0"
    );
}

#[test]
fn files_stand_aligned_and_disjoint() {
    let files: Vec<CpkInputFile> =
        (0..5).map(|i| file("d", &format!("f{i}"), i * 30, i)).collect();
    let sources: Vec<Vec<u8>> = (0..5).map(|i| vec![i as u8 + 1; i * 30]).collect();
    let (archive, report) =
        pack(&files, &sources, 0x40, &profile(CpkIndexMode::TocAndItoc, false)).unwrap();
    assert_eq!(report.content_offset % 0x40, 0);
    assert_eq!(archive.len() % 0x40, 0);
    assert_eq!(&archive[report.toc_offset as usize..][..4], b"TOC ");
    assert_eq!(&archive[report.itoc_offset as usize..][..4], b"ITOC");
    let mut reader = CpkReader::new(archive.clone());
    let mut end = report.content_offset;
    for (i, entry) in reader.get_files().unwrap().iter().enumerate() {
        assert_eq!(entry.absolute_offset() % 0x40, 0);
        assert!(entry.absolute_offset() >= end);
        assert_eq!(entry.file_offset() + 0x800, entry.absolute_offset());
        end = entry.absolute_offset() + entry.file_size() as u64;
        assert_eq!(
            &archive[entry.absolute_offset() as usize..end as usize],
            sources[i].as_slice()
        );
    }
}

#[test]
fn plan_steps_make_up_the_archive() {
    let files = vec![file("", "a", 3, 1), file("", "b", 2, 0)];
    let sources = vec![vec![1, 2, 3], vec![4, 5]];
    let profile = profile(CpkIndexMode::Itoc, true);
    let (archive, report) = pack(&files, &sources, 0x10, &profile).unwrap();
    let plan = CpkWriter::plan(&files, options(0x10), &profile).unwrap();
    assert_eq!(plan.report.archive_size, report.archive_size);
    let mut output = Vec::new();
    let mut taken = Vec::new();
    for step in &plan.steps {
        match step {
            WriteStep::Bytes(bytes) => output.extend_from_slice(bytes),
            WriteStep::Zeros(count) => output.resize(output.len() + *count as usize, 0),
            WriteStep::Payload(index) => {
                taken.push(*index);
                output.extend_from_slice(&sources[*index]);
            }
        }
    }
    assert_eq!(output, archive);
    assert_eq!(taken, vec![1, 0]);
    assert_eq!(build_physical_order(&files, &profile).unwrap(), vec![1, 0]);
}

#[test]
fn payload_actions_follow_the_entry() {
    let plain = file("", "a", 4, 0);
    assert_eq!(payload_action(&plain, true, true).unwrap(), PayloadAction::Store);
    let mut marked = file("", "a", 4, 0);
    marked.user_string = "CRI_CFATTR:ENCRYPT".to_owned();
    assert_eq!(payload_action(&marked, false, true).unwrap(), PayloadAction::Store);
    assert_eq!(payload_action(&marked, true, true).unwrap(), PayloadAction::Encrypt);
    assert_eq!(
        payload_action(&marked, true, false).unwrap_err().message(),
        "P5R encryption requires feature cpk_encryption_p5r"
    );
    marked.raw_payload =
        Some(CpkRawPayload { archive_path: "old.cpk".to_owned(), absolute_offset: 8, size: 4 });
    assert_eq!(
        payload_action(&marked, true, false).unwrap(),
        PayloadAction::Reuse { absolute_offset: 8, size: 4 }
    );
    assert!(check_payload(&plain, PayloadAction::Store, 4).is_ok());
    assert_eq!(
        check_payload(&plain, PayloadAction::Store, 5).unwrap_err().message(),
        "in//a changed packed size while packing (expected 4, wrote 5)"
    );
    marked.size = 5;
    assert_eq!(
        payload_action(&marked, true, false).unwrap_err().message(),
        "raw payload source is truncated or unreadable: old.cpk"
    );
}

#[test]
fn reused_bytes_come_from_the_archive() {
    let mut entry = file("", "a", 3, 0);
    entry.extract_size = 10;
    entry.raw_payload =
        Some(CpkRawPayload { archive_path: "old.cpk".to_owned(), absolute_offset: 2, size: 3 });
    let source = vec![0, 1, 2, 3, 4, 5];
    assert_eq!(
        packed_payload::<DummyDecryptor>(&entry, &source, false, false).unwrap(),
        vec![2, 3, 4]
    );
    assert_eq!(
        packed_payload::<DummyDecryptor>(&entry, &vec![0, 1, 2, 3], false, false)
            .unwrap_err()
            .message(),
        "raw payload source is truncated or unreadable: old.cpk"
    );
    let (archive, _) =
        pack(&[entry], &vec![source], 0x10, &profile(CpkIndexMode::Toc, false)).unwrap();
    let mut reader = CpkReader::new(archive);
    let files = reader.get_files().unwrap();
    assert_eq!((files[0].file_size(), files[0].extract_size()), (3, 10));
    assert_eq!(reader.read_packed_file(&files[0]).unwrap(), vec![2, 3, 4]);
}

#[test]
fn marked_files_are_transformed_and_back() {
    let mut marked = file("", "secret", 3, 0);
    marked.user_string = "CRI_CFATTR:ENCRYPT".to_owned();
    let files = vec![marked, file("", "plain", 2, 1)];
    let sources = vec![vec![1, 2, 3], vec![4, 5]];
    let with_transform = CpkWriterOptions { alignment: 0x10, p5r_encryption: true };
    let mut archive = Vec::new();
    CpkWriter::write_with_encryption::<Inverter>(
        &mut archive,
        &files,
        &sources,
        with_transform,
        &CpkWriterProfile::default(),
    )
    .unwrap();
    let mut reader = CpkReader::<Inverter>::new_with_encryption(archive.clone());
    let entries = reader.get_files().unwrap();
    let (packed, extracted) = reader.extract_file_with_packed(&entries[0]).unwrap();
    assert_eq!(packed, vec![0x54, 0x57, 0x56]);
    assert_eq!(extracted, vec![1, 2, 3]);
    assert_eq!(reader.extract_file(&entries[1]).unwrap(), vec![4, 5]);
    assert_eq!(reader.into_inner(), archive);

    let mut refused = Vec::new();
    assert_eq!(
        CpkWriter::pack_files(&mut refused, &files, &sources, with_transform)
            .unwrap_err()
            .message(),
        "P5R encryption requires feature cpk_encryption_p5r"
    );
}

#[test]
fn archives_may_begin_inside_the_stream() {
    let files = vec![file("d", "a", 2, 5)];
    let (archive, _) =
        pack(&files, &vec![vec![8, 9]], 0x10, &profile(CpkIndexMode::TocAndItoc, false)).unwrap();
    let mut stream = vec![0xee; 7];
    stream.extend_from_slice(&archive);
    let mut reader: CpkReader = CpkReader::starting_at(stream, 7);
    let entries = reader.get_files().unwrap();
    assert_eq!(entries[0].id(), Some(5));
    assert_eq!(reader.extract_file(&entries[0]).unwrap(), vec![8, 9]);

    let mut alone = CpkReader::new(archive);
    for listed in [alone.get_files().unwrap(), reader.get_files().unwrap()] {
        assert_eq!(listed.len(), 1);
        assert_eq!(listed[0].directory(), entries[0].directory());
        assert_eq!(listed[0].file_name(), entries[0].file_name());
        assert_eq!(listed[0].file_offset(), entries[0].file_offset());
        assert_eq!(listed[0].absolute_offset(), entries[0].absolute_offset());
        assert_eq!(listed[0].file_size(), entries[0].file_size());
    }
    assert_eq!(alone.extract_file(&entries[0]).unwrap(), vec![8, 9]);
}

#[test]
fn an_index_whose_place_leaves_64_bits_is_missing() {
    let columns = vec![UtfColumn::new("TocOffset", UtfType::UInt64)];
    let archive = archive_with(columns, vec![UtfValue::UInt64(u64::MAX)], &[]);
    assert_eq!(
        CpkReader::new(archive.clone()).get_files().unwrap_err().message(),
        "failed to fill whole buffer"
    );
    let mut stream = vec![0xee; 7];
    stream.extend_from_slice(&archive);
    let mut reader: CpkReader = CpkReader::starting_at(stream, 7);
    assert_eq!(
        reader.get_files().unwrap_err().message(),
        "TOC row has no valid FileOffset"
    );
}

#[test]
fn compressed_files_are_decompressed_after_decryption() {
    let mut files = vec![file("d", "a", 3, 0), file("d", "b", 3, 1), file("d", "c", 2, 2)];
    files[1].user_string = "CRI_CFATTR:ENCRYPT".to_owned();
    let sources = vec![vec![0x5a, 1, 2], vec![0x0f, 0x55, 0x54], vec![1, 0x5a]];
    let (archive, _) = pack(&files, &sources, 0x10, &profile(CpkIndexMode::Toc, false)).unwrap();

    let mut reader: CpkReader<Inverter, Doubler> = CpkReader::starting_at(archive.clone(), 0);
    let entries = reader.get_files().unwrap();
    let (packed, extracted) = reader.extract_file_with_packed(&entries[0]).unwrap();
    assert_eq!(packed, vec![0x5a, 1, 2]);
    assert_eq!(extracted, vec![1, 2, 1, 2]);
    let (packed, extracted) = reader.extract_file_with_packed(&entries[1]).unwrap();
    assert_eq!(packed, vec![0x0f, 0x55, 0x54]);
    assert_eq!(extracted, vec![0, 1, 0, 1]);
    assert_eq!(reader.extract_file(&entries[2]).unwrap(), vec![1, 0x5a]);

    let mut stored = CpkReader::new(archive);
    stored.get_files().unwrap();
    assert_eq!(stored.extract_file(&entries[0]).unwrap(), vec![0x5a, 1, 2]);
    assert!(!DummyDecompressor::is_compressed(&packed));
    assert_eq!(DummyDecompressor::decompress(&packed), packed);
}

#[test]
fn files_are_read_only_after_the_listing() {
    let files = vec![file("", "a", 1, 0)];
    let (archive, _) =
        pack(&files, &vec![vec![8]], 0x10, &profile(CpkIndexMode::Toc, false)).unwrap();
    let mut reader = CpkReader::new(archive.clone());
    assert!(reader.metadata().is_none());
    let entries = reader.get_files().unwrap();
    let mut fresh = CpkReader::new(archive.clone());
    assert_eq!(
        fresh.extract_file(&entries[0]).unwrap_err().message(),
        "get_files must be called before extract_file"
    );
    let mut cut = CpkReader::new(archive[..archive.len() - 0x10].to_vec());
    let entries = cut.get_files().unwrap();
    assert_eq!(
        cut.extract_file(&entries[0]).unwrap_err().message(),
        "failed to fill whole buffer"
    );
}

#[test]
fn encrypted_tables_are_read() {
    let files = vec![file("dir", "a", 1, 0)];
    let (mut archive, report) =
        pack(&files, &vec![vec![8]], 0x10, &profile(CpkIndexMode::Toc, false)).unwrap();
    for at in [0usize, report.toc_offset as usize] {
        let size = u64::from_le_bytes(archive[at + 8..at + 16].try_into().unwrap()) as usize;
        archive[at + 4] = 0;
        TableDecryptor::decrypt_utf_in_place(&mut archive[at + 16..at + 16 + size]);
    }
    let mut reader = CpkReader::new(archive);
    let entries = reader.get_files().unwrap();
    assert_eq!(entries[0].directory(), "dir");
    assert_eq!(reader.extract_file(&entries[0]).unwrap(), vec![8]);
}

/// An archive whose header has these columns and this one row, with `rest`
/// behind the header area.
fn archive_with(columns: Vec<UtfColumn>, row: Vec<UtfValue>, rest: &[u8]) -> Vec<u8> {
    let table = UtfTableBuilder::new("CpkHeader", columns, vec![row]).build().unwrap();
    let mut archive = build_chunk(CpkChunkKind::Cpk, &table);
    archive.resize(0x800, 0);
    archive.extend_from_slice(rest);
    archive
}

fn listing_error(archive: Vec<u8>) -> CpkReaderError {
    match CpkReader::new(archive).get_files() {
        Ok(_) => panic!("the archive was read"),
        Err(e) => e,
    }
}

fn numbers(names: &[&str]) -> Vec<UtfColumn> {
    names.iter().map(|name| UtfColumn::new(name, UtfType::UInt64)).collect()
}

#[test]
fn broken_archives_are_refused() {
    assert_eq!(listing_error(vec![0; 4]).message(), "failed to fill whole buffer");

    let table = UtfTableBuilder::new("T", numbers(&["A"]), vec![vec![UtfValue::UInt64(1)]])
        .build()
        .unwrap();
    assert_eq!(
        listing_error(build_chunk(CpkChunkKind::Toc, &table)).message(),
        "archive does not start with a CPK chunk"
    );
    let empty = UtfTableBuilder::new("T", numbers(&["A"]), vec![]).build().unwrap();
    assert_eq!(
        listing_error(build_chunk(CpkChunkKind::Cpk, &empty)).message(),
        "archive does not start with a CPK chunk"
    );
    assert_eq!(
        listing_error(build_chunk(CpkChunkKind::Cpk, &table)).message(),
        "CPK contains neither a TOC nor an ITOC"
    );

    let itoc = |content: u64| {
        archive_with(
            numbers(&["ItocOffset", "ContentOffset"]),
            vec![UtfValue::UInt64(0x800), UtfValue::UInt64(content)],
            &build_chunk(CpkChunkKind::Itoc, &empty),
        )
    };
    assert_eq!(listing_error(itoc(0)).message(), "CPK header has no ContentOffset");
    assert_eq!(
        listing_error(itoc(0x1_0000_0000)).message(),
        "ITOC ContentOffset exceeds the target engine's 32-bit base: 0x100000000"
    );
    assert_eq!(listing_error(itoc(0x1000)).message(), "invalid ITOC DataL/DataH structure");

    let toc = |columns: Vec<UtfColumn>, rows: Vec<Vec<UtfValue>>| {
        let table = UtfTableBuilder::new("CpkTocInfo", columns, rows).build().unwrap();
        archive_with(
            numbers(&["TocOffset", "ContentOffset"]),
            vec![UtfValue::UInt64(0x800), UtfValue::UInt64(0x1000)],
            &build_chunk(CpkChunkKind::Toc, &table),
        )
    };
    let full = || {
        vec![
            UtfColumn::new("FileName", UtfType::String),
            UtfColumn::new("FileSize", UtfType::UInt64),
            UtfColumn::new("FileOffset", UtfType::UInt64),
        ]
    };
    let row = |name: &str, size: u64, offset: u64| {
        vec![
            UtfValue::String(name.to_owned()),
            UtfValue::UInt64(size),
            UtfValue::UInt64(offset),
        ]
    };
    assert_eq!(
        listing_error(toc(numbers(&["A"]), vec![])).message(),
        "TOC is missing required column FileName"
    );
    assert_eq!(
        listing_error(toc(full(), vec![row("", 1, 0)])).message(),
        "TOC row has no FileName"
    );
    assert_eq!(
        listing_error(toc(full(), vec![row("a", 0x1_0000_0000, 0)])).message(),
        "file size does not fit the CPK format: 4294967296"
    );
    assert_eq!(
        listing_error(toc(full(), vec![row("a", 1, u64::MAX)])).message(),
        "TOC row has no valid FileOffset"
    );
    let mut typed = full();
    typed[1] = UtfColumn::new("FileSize", UtfType::String);
    assert_eq!(
        listing_error(toc(
            typed,
            vec![vec![
                UtfValue::String("a".to_owned()),
                UtfValue::String("b".to_owned()),
                UtfValue::UInt64(0),
            ]]
        ))
        .message(),
        "file row has no valid FileSize"
    );
    let good = toc(full(), vec![row("a", 2, 0)]);
    let files = CpkReader::new(good).get_files().unwrap();
    assert_eq!((files[0].file_size(), files[0].extract_size()), (2, 2));
    assert_eq!(files[0].absolute_offset(), 0x800);
    assert_eq!(files[0].id(), None);
    assert_eq!(files[0].file_crc(), None);
}
