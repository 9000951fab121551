use cri_archive_lib::cli::arguments::{
    parse_command, parse_pack, parse_u16, parse_unpack, Command, PackArguments,
};
use cri_archive_lib::cli::pack::{fresh_options, rebuild_options, require_files};
use cri_archive_lib::cli::unpack::{archive_manifest, record_file, show_path, unpack_file};
use cri_archive_lib::cpk::reader::CpkReader;
use cri_archive_lib::cpk::writer::{
    packed_payload, CpkIndexMode, CpkInputFile, CpkWriter, CpkWriterOptions, CpkWriterProfile,
};
use cri_archive_lib::cpk::encrypt::data::DummyDecryptor;
use cri_archive_lib::manifest::hash::hash_bytes;
use cri_archive_lib::manifest::inputs::FileState;
use cri_archive_lib::manifest::model::Manifest;

fn args(list: &[&str]) -> Vec<String> {
    list.iter().map(|arg| (*arg).to_owned()).collect()
}

#[test]
fn commands_are_told_by_the_first_argument() {
    assert_eq!(parse_command(&args(&[])), Command::Usage);
    assert_eq!(parse_command(&args(&["unpack", "x"])), Command::Unpack);
    assert_eq!(parse_command(&args(&["pack"])), Command::Pack);
    for help in ["help", "--help", "-h"] {
        assert_eq!(parse_command(&args(&[help])), Command::Usage);
    }
    assert_eq!(parse_command(&args(&["data.cpk"])), Command::UnpackPath);
    assert_eq!(parse_command(&args(&["DATA.CpK", "out"])), Command::UnpackPath);
    assert_eq!(parse_command(&args(&["cpk"])), Command::Unknown);
    assert_eq!(parse_command(&args(&["data.bin"])), Command::Unknown);
}

#[test]
fn unpack_arguments_are_read() {
    let parsed = parse_unpack(&args(&["unpack", "a.cpk", "--p5r", "out"]), 1).unwrap();
    assert_eq!(parsed.input, "a.cpk");
    assert_eq!(parsed.output.as_deref(), Some("out"));
    assert!(parsed.p5r);
    let parsed = parse_unpack(&args(&["a.cpk"]), 0).unwrap();
    assert_eq!(parsed.output, None);
    assert!(!parsed.p5r);
    assert_eq!(
        parse_unpack(&args(&["unpack", "--fast", "--slow"]), 1).unwrap_err().message,
        "unknown unpack option: --fast"
    );
    for list in [vec!["unpack"], vec!["unpack", "a", "b", "c"]] {
        assert_eq!(
            parse_unpack(&args(&list), 1).unwrap_err().message,
            "usage: cri-cpk-cli unpack <input.cpk> [output-dir] [--p5r]"
        );
    }
}

#[test]
fn pack_arguments_are_read() {
    let parsed = parse_pack(
        &args(&["pack", "dir", "--align", "0x20", "out.cpk", "--align=64", "--p5r", "--reuse-raw-entries"]),
        1,
    )
    .unwrap();
    assert_eq!(parsed.input, "dir");
    assert_eq!(parsed.output.as_deref(), Some("out.cpk"));
    assert_eq!(parsed.alignment, Some(64));
    assert!(parsed.p5r && parsed.reuse_raw_entries);
    let parsed = parse_pack(&args(&["pack", "dir"]), 1).unwrap();
    assert_eq!((parsed.output, parsed.alignment), (None, None));
    assert!(!parsed.p5r && !parsed.reuse_raw_entries);
    let error = |list: &[&str]| parse_pack(&args(list), 1).unwrap_err().message;
    assert_eq!(error(&["pack", "dir", "--align"]), "--align requires a value");
    assert_eq!(error(&["pack", "dir", "--align", "x"]), "invalid digit found in string");
    assert_eq!(error(&["pack", "--align=", "--bad"]), "cannot parse integer from empty string");
    assert_eq!(error(&["pack", "--bad", "--align"]), "unknown pack option: --bad");
    for list in [vec!["pack"], vec!["pack", "a", "b", "c"]] {
        assert_eq!(
            error(&list),
            "usage: cri-cpk-cli pack <input-dir> [output.cpk] [--align 0x800] [--p5r] [--reuse-raw-entries]"
        );
    }
}

#[test]
fn alignments_are_read_as_the_standard_library_does() {
    for text in ["0", "2048", "+16", "65535", "65536", "", "-1", "1x", "99999x", "9x9999"] {
        match (parse_u16(text), text.parse::<u16>()) {
            (Ok(a), Ok(b)) => assert_eq!(a, b),
            (Err(a), Err(b)) => assert_eq!(a.message, b.to_string()),
            (a, b) => panic!("{text}: {a:?} {b:?}"),
        }
    }
    for digits in ["0", "800", "FfFf", "10000", "", "+8", "g", "10000g"] {
        for prefix in ["0x", "0X"] {
            match (parse_u16(&format!("{prefix}{digits}")), u16::from_str_radix(digits, 16)) {
                (Ok(a), Ok(b)) => assert_eq!(a, b),
                (Err(a), Err(b)) => assert_eq!(a.message, b.to_string()),
                (a, b) => panic!("{digits}: {a:?} {b:?}"),
            }
        }
    }
}

fn pack_arguments(alignment: Option<u16>, p5r: bool, reuse_raw_entries: bool) -> PackArguments {
    PackArguments {
        input: "in".to_owned(),
        output: None,
        alignment,
        p5r,
        reuse_raw_entries,
    }
}

fn empty_manifest(alignment: u16, p5r: bool) -> Manifest {
    Manifest {
        source_archive: "old.cpk".to_owned(),
        archive_size: 0,
        archive_hash: 0,
        alignment,
        has_toc: true,
        has_itoc: false,
        direct_itoc: false,
        p5r,
        version: 7,
        revision: 0,
        update_date_time: 0,
        entries: vec![],
    }
}

#[test]
fn packing_options_follow_the_manifest_and_the_arguments() {
    let options = rebuild_options(
        &empty_manifest(0, true),
        &pack_arguments(None, false, false),
        true,
    )
    .unwrap();
    assert_eq!((options.alignment, options.p5r_encryption), (1, true));
    let options = rebuild_options(
        &empty_manifest(0x40, false),
        &pack_arguments(Some(0x20), false, true),
        false,
    )
    .unwrap();
    assert_eq!((options.alignment, options.p5r_encryption), (0x20, false));
    assert_eq!(
        rebuild_options(&empty_manifest(1, false), &pack_arguments(None, false, true), true)
            .unwrap_err()
            .message,
        "--reuse-raw-entries cannot overwrite the source CPK because raw entry bytes are read from it"
    );
    let options = fresh_options(&pack_arguments(None, true, false)).unwrap();
    assert_eq!((options.alignment, options.p5r_encryption), (0x800, true));
    assert_eq!(
        fresh_options(&pack_arguments(None, false, true)).unwrap_err().message,
        "--reuse-raw-entries requires a .cri-cpk-manifest-v2 generated by unpack"
    );
    assert_eq!(
        require_files(&vec![]).unwrap_err().message,
        "input directory contains no packable files"
    );
}

fn file(directory: &str, file_name: &str, size: u32, id: u32) -> CpkInputFile {
    CpkInputFile {
        directory: directory.to_owned(),
        file_name: file_name.to_owned(),
        source_path: file_name.to_owned(),
        size,
        extract_size: size,
        id,
        user_string: "note".to_owned(),
        raw_payload: None,
    }
}

fn archive(files: &[CpkInputFile], sources: &Vec<Vec<u8>>, mode: CpkIndexMode) -> Vec<u8> {
    let profile = CpkWriterProfile { index_mode: mode, ..CpkWriterProfile::default() };
    let mut output = Vec::new();
    CpkWriter::pack_files_with_profile(
        &mut output,
        files,
        sources,
        CpkWriterOptions { alignment: 0x10, p5r_encryption: false },
        &profile,
    )
    .unwrap();
    output
}

#[test]
fn reserved_and_unsafe_names_are_not_unpacked() {
    let bytes = archive(
        &[
            file("", ".cri-cpk-manifest-v2", 1, 0),
            file("../up", "x", 1, 1),
            file("sub", ".cri-cpk-manifest-v2", 1, 2),
        ],
        &vec![vec![1], vec![2], vec![3]],
        CpkIndexMode::Toc,
    );
    let mut reader = CpkReader::new(bytes.clone());
    let listing = reader.get_files().unwrap();
    assert_eq!(
        unpack_file(false, &mut reader, &listing[0], "out/.cri-cpk-manifest-v2").unwrap_err().message,
        "CPK entry conflicts with reserved manifest name: out/.cri-cpk-manifest-v2"
    );
    assert_eq!(
        unpack_file(false, &mut reader, &listing[1], "m").unwrap_err().message,
        "unsafe path in CPK: ../up/x"
    );
    let unpacked = unpack_file(false, &mut reader, &listing[2], "m").unwrap();
    assert_eq!(unpacked.components, args(&["sub", ".cri-cpk-manifest-v2"]));
    assert_eq!((unpacked.packed, unpacked.extracted), (vec![3], vec![3]));
    assert_eq!(show_path(&listing[0]), ".cri-cpk-manifest-v2");
    assert_eq!(show_path(&listing[1]), "../up/x");
    let mut fresh = CpkReader::new(bytes);
    assert_eq!(
        unpack_file(false, &mut fresh, &listing[2], "m").unwrap_err().message,
        "get_files must be called before extract_file"
    );
}

#[test]
fn unpacking_and_packing_again_keeps_the_rows() {
    let sources = vec![vec![1, 2, 3], vec![], vec![4; 40]];
    let first = archive(
        &[file("d", "a", 3, 8), file("", "b", 0, 3), file("d/e", "c", 40, 5)],
        &sources,
        CpkIndexMode::TocAndItoc,
    );
    let mut reader = CpkReader::new(first.clone());
    let listing = reader.get_files().unwrap();
    let metadata = reader.metadata().copied().unwrap();
    let mut entries = Vec::new();
    let mut states = Vec::new();
    for (index, entry) in listing.iter().enumerate() {
        let unpacked = unpack_file(false, &mut reader, entry, "m").unwrap();
        states.push(Some(FileState {
            path: unpacked.components.join("/"),
            size: unpacked.extracted.len() as u64,
            hash: hash_bytes(&unpacked.extracted),
        }));
        entries.push(record_file(entry, index, &unpacked.packed, &unpacked.extracted).unwrap());
    }
    let manifest = archive_manifest(
        "first.cpk".to_owned(),
        first.len() as u64,
        hash_bytes(&first),
        &metadata,
        false,
        entries,
    );
    assert!(manifest.has_toc && manifest.has_itoc && !manifest.direct_itoc);
    assert_eq!(manifest.alignment, 0x10);
    let manifest = Manifest::read(Some(&manifest.write())).unwrap().unwrap();
    let source = Some((first.len() as u64, hash_bytes(&first)));
    for reuse in [false, true] {
        let (files, positions) =
            manifest.build_inputs(false, &states, &vec![], reuse, source).unwrap();
        assert!(positions.is_empty());
        let contents = if reuse { vec![first.clone(); 3] } else { sources.clone() };
        for (file, given) in files.iter().zip(&contents) {
            assert_eq!(file.raw_payload.is_some(), reuse);
            let index = files.iter().position(|f| f.id == file.id).unwrap();
            assert_eq!(
                packed_payload::<DummyDecryptor>(file, given, false, false).unwrap(),
                sources[index]
            );
        }
        let mut second = Vec::new();
        CpkWriter::pack_files_with_profile(
            &mut second,
            &files,
            &contents,
            rebuild_options(&manifest, &pack_arguments(None, false, reuse), false).unwrap(),
            &manifest.writer_profile(),
        )
        .unwrap();
        let mut again = CpkReader::new(second);
        let relisted = again.get_files().unwrap();
        assert_eq!(relisted, listing);
        for (entry, expected) in relisted.iter().zip(&sources) {
            assert_eq!(&again.extract_file(entry).unwrap(), expected);
        }
    }
}
