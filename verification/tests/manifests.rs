use cri_archive_lib::cpk::collect::FoundFile;
use cri_archive_lib::cpk::writer::{CpkIndexMode, CpkInputFile};
use cri_archive_lib::manifest::fields::{
    decode_field, encode_field, parse_number, scan_number, split_key, split_lines, split_on,
    NumeralFault,
};
use cri_archive_lib::manifest::hash::{hash_bytes, hash_update, FNV_OFFSET_BASIS};
use cri_archive_lib::manifest::inputs::FileState;
use cri_archive_lib::manifest::model::{Manifest, ManifestEntry};
use cri_archive_lib::manifest::paths::{safe_output_path, safe_path, safe_relative_path};

fn chars(text: &str) -> Vec<char> {
    text.chars().collect()
}

fn texts(lists: Vec<Vec<char>>) -> Vec<String> {
    lists.into_iter().map(|list| list.into_iter().collect()).collect()
}

fn entry(directory: &str, file_name: &str, id: u32) -> ManifestEntry {
    ManifestEntry {
        directory: directory.to_owned(),
        file_name: file_name.to_owned(),
        id,
        user_string: "u".to_owned(),
        extracted_size: 10,
        extracted_hash: 0xabc,
        packed_size: 6,
        packed_offset: 0x1000,
        packed_hash: 0xdef,
    }
}

fn manifest(has_toc: bool, has_itoc: bool, entries: Vec<ManifestEntry>) -> Manifest {
    Manifest {
        source_archive: "/a b/ü.cpk".to_owned(),
        archive_size: 4096,
        archive_hash: 0x1234,
        alignment: 0x800,
        has_toc,
        has_itoc,
        direct_itoc: false,
        p5r: true,
        version: 7,
        revision: 14,
        update_date_time: 99,
        entries,
    }
}

fn sample_text() -> String {
    manifest(true, false, vec![entry("d", "f.bin", 3)]).write()
}

fn read_error(text: &str) -> String {
    match Manifest::read(Some(text)) {
        Ok(_) => panic!("the manifest was accepted"),
        Err(e) => e.message,
    }
}

#[test]
fn fnv_hashes_are_the_known_ones() {
    assert_eq!(hash_bytes(b""), 0xcbf29ce484222325);
    assert_eq!(hash_bytes(b"a"), 0xaf63dc4c8601ec8c);
    assert_eq!(hash_bytes(b"foobar"), 0x85944171f73967e8);
}

#[test]
fn hashing_in_pieces_gives_the_hash_of_the_whole() {
    let front = hash_update(FNV_OFFSET_BASIS, b"foo");
    assert_eq!(hash_update(front, b"bar"), hash_bytes(b"foobar"));
}

#[test]
fn fields_are_hex_encoded() {
    assert_eq!(encode_field("aü"), "61c3bc");
    assert_eq!(decode_field(&chars("61c3BC")).unwrap(), "aü");
    assert_eq!(decode_field(&chars("")).unwrap(), "");
    assert_eq!(
        decode_field(&chars("616")).unwrap_err(),
        "invalid hex string in CPK manifest"
    );
    assert_eq!(
        decode_field(&chars("6g")).unwrap_err(),
        "invalid hex string in CPK manifest"
    );
    assert_eq!(decode_field(&chars("ff")).unwrap_err(), "manifest string is not UTF-8");
}

#[test]
fn texts_are_split_as_lines_and_fields() {
    for text in ["", "a", "a\n", "a\nb", "a\r\nb\r\n", "\n\n", "a\rb\n"] {
        let expected: Vec<String> = text.lines().map(|line| line.to_owned()).collect();
        assert_eq!(texts(split_lines(&chars(text))), expected);
    }
    for text in ["", "a", "a\tb", "\t", "a\t\tb"] {
        let expected: Vec<String> = text.split('\t').map(|part| part.to_owned()).collect();
        assert_eq!(texts(split_on(&chars(text), '\t')), expected);
    }
    let (key, value) = split_key(&chars("key\ta\tb"));
    assert_eq!(texts(vec![key, value.unwrap()]), vec!["key", "a\tb"]);
    assert!(split_key(&chars("key")).1.is_none());
}

#[test]
fn numerals_are_read_as_the_standard_library_does() {
    for text in ["0", "7", "+7", "65535", "65536", "", "+", "-1", "1x", "99999x", "9x99999"] {
        let expected = text.parse::<u16>().ok().map(u64::from);
        assert_eq!(parse_number(&chars(text), 10, u16::MAX as u64), expected, "{text}");
        let hexadecimal = u64::from_str_radix(text, 16).ok();
        assert_eq!(parse_number(&chars(text), 16, u64::MAX), hexadecimal, "{text}");
    }
    assert_eq!(scan_number(&chars(""), 10, 9), Err(NumeralFault::Empty));
    assert_eq!(scan_number(&chars("x"), 10, 9), Err(NumeralFault::InvalidDigit));
    assert_eq!(scan_number(&chars("10"), 10, 9), Err(NumeralFault::TooLarge));
    assert_eq!(scan_number(&chars("18446744073709551615"), 10, u64::MAX), Ok(u64::MAX));
    assert_eq!(
        scan_number(&chars("18446744073709551616"), 10, u64::MAX),
        Err(NumeralFault::TooLarge)
    );
}

#[test]
fn manifest_text_is_exact() {
    assert_eq!(
        sample_text(),
        "CRI_CPK_MANIFEST_V2\n\
         source\t2f6120622fc3bc2e63706b\n\
         archive_size\t4096\n\
         archive_hash\t0000000000001234\n\
         alignment\t2048\n\
         has_toc\t1\n\
         has_itoc\t0\n\
         direct_itoc\t0\n\
         p5r\t1\n\
         version\t7\n\
         revision\t14\n\
         update_date_time\t99\n\
         entry\t3\t10\t0000000000000abc\t6\t4096\t0000000000000def\t64\t662e62696e\t75\n"
    );
}

#[test]
fn manifests_read_back() {
    let written = manifest(true, true, vec![entry("", "a\tb\n", 0), entry("x/y", "", u32::MAX)]);
    let read = Manifest::read(Some(&written.write())).unwrap().unwrap();
    assert_eq!(read.source_archive, written.source_archive);
    assert_eq!(read.archive_size, written.archive_size);
    assert_eq!(read.archive_hash, written.archive_hash);
    assert_eq!(read.alignment, written.alignment);
    assert_eq!((read.has_toc, read.has_itoc, read.direct_itoc), (true, true, false));
    assert!(read.p5r);
    assert_eq!((read.version, read.revision), (7, 14));
    assert_eq!(read.update_date_time, 99);
    assert_eq!(read.entries.len(), 2);
    for (a, b) in read.entries.iter().zip(&written.entries) {
        assert_eq!(format!("{a:?}"), format!("{b:?}"));
    }
    assert!(Manifest::read(None).unwrap().is_none());
    let spaced = sample_text().replace("entry", "\n\nentry").replace('\n', "\r\n");
    assert_eq!(Manifest::read(Some(&spaced)).unwrap().unwrap().entries.len(), 1);
}

#[test]
fn broken_manifests_are_refused() {
    let good = sample_text();
    let with = |from: &str, to: &str| read_error(&good.replace(from, to));
    assert_eq!(read_error(""), "unsupported CPK manifest version");
    assert_eq!(with("_V2", "_V1"), "unsupported CPK manifest version");
    assert_eq!(read_error("CRI_CPK_MANIFEST_V2\n"), "manifest is missing source");
    assert_eq!(with("archive_size", "size"), "manifest expected archive_size");
    assert_eq!(with("archive_size\t4096", "archive_size"), "manifest archive_size has no value");
    assert_eq!(with("source\t2f", "source\t2"), "invalid hex string in CPK manifest");
    assert_eq!(with("archive_size\t4096", "archive_size\tx"), "invalid manifest archive_size");
    assert_eq!(
        with("archive_hash\t0000000000001234", "archive_hash\t-1"),
        "invalid manifest archive_hash"
    );
    assert_eq!(with("alignment\t2048", "alignment\t65536"), "manifest alignment exceeds u16");
    assert_eq!(with("has_toc\t1", "has_toc\t2"), "invalid manifest has_toc");
    assert_eq!(with("version\t7", "version\t70000"), "manifest version exceeds u16");
    assert_eq!(with("revision\t14", "revision\t70000"), "manifest revision exceeds u16");
    assert_eq!(with("entry\t3", "other\t3"), "unknown CPK manifest record");
    assert_eq!(with("entry\t3", "entry\tx"), "invalid manifest entry ID");
    assert_eq!(with("entry\t3", "entry\t4294967296"), "manifest entry ID exceeds u32");
    assert_eq!(
        with("\t6\t4096\t", "\t4294967296\t4096\t"),
        "manifest packed size exceeds u32"
    );
    assert_eq!(with("\t75\n", "\n"), "manifest is missing entry user string");
    assert_eq!(with("\t75\n", "\t75\t\n"), "too many fields in CPK manifest entry");
    assert_eq!(with("has_toc\t1", "has_toc\t0"), "manifest contains neither TOC nor ITOC");
    assert_eq!(with("direct_itoc\t0", "direct_itoc\t1"), "direct ITOC flag without ITOC");
}

#[test]
fn the_profile_follows_the_manifest() {
    for (has_toc, has_itoc, mode) in [
        (true, false, CpkIndexMode::Toc),
        (false, true, CpkIndexMode::Itoc),
        (true, true, CpkIndexMode::TocAndItoc),
    ] {
        let profile = manifest(has_toc, has_itoc, vec![]).writer_profile();
        assert_eq!(profile.index_mode, mode);
        assert_eq!((profile.version, profile.revision), (7, 14));
        assert_eq!(profile.update_date_time, 99);
        assert_eq!(profile.tvers, "7.0.0");
    }
}

#[test]
fn the_source_is_known_by_size_and_hash() {
    let m = manifest(true, false, vec![]);
    assert!(m.source_is_original(Some((4096, 0x1234))));
    assert!(!m.source_is_original(Some((4095, 0x1234))));
    assert!(!m.source_is_original(Some((4096, 0x1235))));
    assert!(!m.source_is_original(None));
}

#[test]
fn paths_stay_inside_their_directory() {
    assert_eq!(
        safe_path(false, "a\\b/./c//", "d").unwrap(),
        vec!["a".to_owned(), "b".to_owned(), "c".to_owned(), "d".to_owned()]
    );
    assert_eq!(safe_path(false, "", "x/y").unwrap(), vec!["x".to_owned(), "y".to_owned()]);
    for (directory, file_name) in [("..", "x"), ("a/../b", "x"), ("/a", "x"), ("a", "\\x"), ("a", "..")] {
        assert!(safe_path(false, directory, file_name).is_none());
    }
    assert_eq!(
        safe_relative_path(false, "..", "x").unwrap_err().message,
        "unsafe path in CPK manifest: ../x"
    );
    assert_eq!(safe_relative_path(false, "", ".").unwrap_err().message, "empty path in CPK manifest");
    assert_eq!(
        safe_output_path(false, "/etc", "x").unwrap_err().message,
        "unsafe path in CPK: /etc/x"
    );
    assert_eq!(safe_output_path(false, "", "").unwrap(), Vec::<String>::new());
    assert_eq!(
        safe_path(false, "c:\\a", "B:x").unwrap(),
        vec!["c:".to_owned(), "a".to_owned(), "B:x".to_owned()]
    );
    assert!(safe_path(true, "c:\\a", "x").is_none());
    assert!(safe_path(true, "a", "B:x").is_none());
    assert!(safe_path(true, "1:", "ab:c").is_some());
}

fn state(path: &str, size: u64, hash: u64) -> Option<FileState> {
    Some(FileState { path: path.to_owned(), size, hash })
}

fn listed(path: &str, size: u64) -> FoundFile {
    FoundFile {
        path: format!("root/{path}"),
        relative: path.to_owned(),
        parent: match path.rfind('/') {
            Some(at) => path[..at].to_owned(),
            None => String::new(),
        },
        components: path.split('/').map(|part| part.as_bytes().to_vec()).collect(),
        left_out: false,
        size,
    }
}

fn rows(files: &[CpkInputFile]) -> Vec<(String, String, u32, u32)> {
    files
        .iter()
        .map(|f| (f.directory.clone(), f.file_name.clone(), f.id, f.size))
        .collect()
}

fn row(directory: &str, file_name: &str, id: u32, size: u32) -> (String, String, u32, u32) {
    (directory.to_owned(), file_name.to_owned(), id, size)
}

#[test]
fn missing_files_are_dropped_and_new_ones_added() {
    let m = manifest(
        true,
        false,
        vec![entry("d", "a", 4), entry("d\\e", "b", 9), entry("", "c", 2)],
    );
    let states = vec![state("root/d/a", 10, 0xabc), state("root/d/e/b", 11, 0), None];
    let mut left_out = listed("out.cpk", 1);
    left_out.left_out = true;
    let found = vec![
        listed("z", 1),
        listed("d/e/b", 11),
        listed("d/a", 10),
        listed("d-x/n", 3),
        listed("d/n", 2),
        left_out,
    ];
    let (files, positions) = m.build_inputs(false, &states, &found, false, None).unwrap();
    assert_eq!(
        rows(&files),
        vec![
            row("d", "a", 4, 10),
            row("d\\e", "b", 9, 11),
            row("d", "n", 10, 2),
            row("d-x", "n", 11, 3),
            row("", "z", 12, 1),
        ]
    );
    assert_eq!(positions, vec![4, 3, 0]);
    assert_eq!(files[0].user_string, "u");
    assert_eq!(files[2].user_string, "");
    assert_eq!(files[2].source_path, "root/d/n");
    assert!(files.iter().all(|f| f.raw_payload.is_none()));
    assert!(files.iter().all(|f| f.size == f.extract_size));
}

#[test]
fn archives_by_id_fill_the_gaps() {
    let m = manifest(false, true, vec![entry("", "a", 0), entry("", "b", 2), entry("", "c", 70000)]);
    let states = vec![state("a", 1, 1), state("b", 1, 1), state("c", 1, 1)];
    let found = vec![listed("x", 1), listed("y", 1), listed("w", 1)];
    let (files, _) = m.build_inputs(false, &states, &found, false, None).unwrap();
    let ids: Vec<u32> = files.iter().map(|f| f.id).collect();
    assert_eq!(ids, vec![0, 2, 70000, 1, 3, 4]);
}

#[test]
fn ids_run_out() {
    let all: Vec<ManifestEntry> =
        (0..=0xffffu32).map(|id| entry("", &format!("f{id}"), id)).collect();
    let states: Vec<Option<FileState>> = (0..=0xffffu32).map(|_| state("f", 1, 1)).collect();
    let m = manifest(false, true, all);
    assert_eq!(
        m.build_inputs(false, &states, &vec![listed("new", 1)], false, None).unwrap_err().message,
        "ITOC has no free 16-bit IDs"
    );
    assert!(m.build_inputs(false, &states, &vec![], false, None).is_ok());

    let m = manifest(true, false, vec![entry("", "a", u32::MAX)]);
    assert_eq!(
        m.build_inputs(false, &vec![state("a", 1, 1)], &vec![], false, None).unwrap_err().message,
        "no free CPK IDs"
    );
    let m = manifest(true, false, vec![entry("", "a", u32::MAX - 1)]);
    let states = vec![state("a", 1, 1)];
    let (files, _) = m.build_inputs(false, &states, &vec![listed("n", 1)], false, None).unwrap();
    assert_eq!(files[1].id, u32::MAX);
    assert_eq!(
        m.build_inputs(false, &states, &vec![listed("n", 1), listed("o", 1)], false, None)
            .unwrap_err()
            .message,
        "no free CPK IDs"
    );
    let m = manifest(true, false, vec![entry("", "a", 7)]);
    let (files, _) = m.build_inputs(false, &vec![None], &vec![listed("n", 1)], false, None).unwrap();
    assert_eq!(files[0].id, 0);
}

#[test]
fn packed_bytes_are_reused_of_unchanged_files_only() {
    let m = manifest(true, false, vec![entry("", "a", 0), entry("", "b", 1), entry("", "c", 2)]);
    let states = vec![state("a", 10, 0xabc), state("b", 10, 0xabd), state("c", 9, 0xabc)];
    let original = Some((4096, 0x1234));
    let (files, _) = m.build_inputs(false, &states, &vec![listed("n", 5)], true, original).unwrap();
    let raw = files[0].raw_payload.as_ref().unwrap();
    assert_eq!(raw.archive_path, "/a b/ü.cpk");
    assert_eq!((raw.absolute_offset, raw.size), (0x1000, 6));
    assert_eq!((files[0].size, files[0].extract_size), (6, 10));
    assert!(files[1].raw_payload.is_none());
    assert_eq!((files[1].size, files[1].extract_size), (10, 10));
    assert!(files[2].raw_payload.is_none());
    assert!(files[3].raw_payload.is_none());
    for source in [None, Some((4096, 0x1235))] {
        assert_eq!(
            m.build_inputs(false, &states, &vec![], true, source).unwrap_err().message,
            "--reuse-raw-entries requires the original source CPK to exist unchanged"
        );
    }
}

#[test]
fn files_that_cannot_be_packed_are_told() {
    let m = manifest(true, false, vec![entry("..", "a", 0)]);
    assert_eq!(
        m.build_inputs(false, &vec![None], &vec![], false, None).unwrap_err().message,
        "unsafe path in CPK manifest: ../a"
    );
    let m = manifest(true, false, vec![entry("", "a", 0)]);
    let huge = 0x1_0000_0000;
    assert_eq!(
        m.build_inputs(false, &vec![state("root/a", huge, 0)], &vec![], false, None)
            .unwrap_err()
            .message,
        "root/a is too large for CPK"
    );
    assert_eq!(
        m.build_inputs(false, &vec![None], &vec![listed("n", huge)], false, None).unwrap_err().message,
        "root/n is too large for CPK"
    );
    let mut name = listed("d/n", 1);
    name.components[1] = vec![0xff];
    assert_eq!(
        m.build_inputs(false, &vec![None], &vec![name], false, None).unwrap_err().message,
        "non-UTF-8 path: d/n"
    );
    let mut directory = listed("d/n", 1);
    directory.components[0] = vec![0xff];
    assert_eq!(
        m.build_inputs(false, &vec![None], &vec![directory], false, None).unwrap_err().message,
        "non-UTF-8 path: d"
    );
}
