//! What a manifest records, and how it is written and read.

use vstd::prelude::*;
use vstd::string::*;

use crate::cpk::input::{default_profile, CpkIndexMode, CpkWriterProfile, ProfileView};
use crate::manifest::fields::{
    decode_field, decoded, encode_field, encoded, parts_of, find_from, lines_of, number_in,
    parse_number, split_on, split_key, split_lines, texts,
};
use crate::utils::text::{decimal, hexadecimal, numeral, pad_zeros, to_chars, zero_padded};

verus! {

/// The name of the manifest file.
pub const MANIFEST_FILE_NAME: &'static str = ".cri-cpk-manifest-v2";

/// The name of the manifest file of older versions.
pub const LEGACY_MANIFEST_FILE_NAME: &'static str = ".cri-cpk-manifest-v1";

/// The first line of a manifest.
pub const MANIFEST_MAGIC: &'static str = "CRI_CPK_MANIFEST_V2";

/// Why a manifest cannot be used.
#[derive(Debug)]
pub struct ManifestError {
    pub message: String,
}

impl View for ManifestError {
    type V = Seq<char>;

    open spec fn view(&self) -> Seq<char> {
        self.message@
    }
}

/// What the manifest records of a file.
#[derive(Debug, Clone)]
pub struct ManifestEntry {
    pub directory: String,
    pub file_name: String,
    pub id: u32,
    pub user_string: String,
    pub extracted_size: u64,
    pub extracted_hash: u64,
    pub packed_size: u32,
    pub packed_offset: u64,
    pub packed_hash: u64,
}

/// [`ManifestEntry`] with its texts as character sequences.
pub struct EntryView {
    pub directory: Seq<char>,
    pub file_name: Seq<char>,
    pub id: u32,
    pub user_string: Seq<char>,
    pub extracted_size: u64,
    pub extracted_hash: u64,
    pub packed_size: u32,
    pub packed_offset: u64,
    pub packed_hash: u64,
}

impl View for ManifestEntry {
    type V = EntryView;

    open spec fn view(&self) -> EntryView {
        EntryView {
            directory: self.directory@,
            file_name: self.file_name@,
            id: self.id,
            user_string: self.user_string@,
            extracted_size: self.extracted_size,
            extracted_hash: self.extracted_hash,
            packed_size: self.packed_size,
            packed_offset: self.packed_offset,
            packed_hash: self.packed_hash,
        }
    }
}

/// A list of entries.
pub open spec fn entries_view(entries: Seq<ManifestEntry>) -> Seq<EntryView> {
    Seq::new(entries.len(), |i: int| entries[i]@)
}

/// What the manifest records of an archive.
#[derive(Debug, Clone)]
pub struct Manifest {
    pub source_archive: String,
    pub archive_size: u64,
    pub archive_hash: u64,
    pub alignment: u16,
    pub has_toc: bool,
    pub has_itoc: bool,
    pub direct_itoc: bool,
    pub p5r: bool,
    pub version: u16,
    pub revision: u16,
    pub update_date_time: u64,
    pub entries: Vec<ManifestEntry>,
}

/// [`Manifest`] with its texts as character sequences.
#[verifier::ext_equal]
pub struct ManifestView {
    pub source_archive: Seq<char>,
    pub archive_size: u64,
    pub archive_hash: u64,
    pub alignment: u16,
    pub has_toc: bool,
    pub has_itoc: bool,
    pub direct_itoc: bool,
    pub p5r: bool,
    pub version: u16,
    pub revision: u16,
    pub update_date_time: u64,
    pub entries: Seq<EntryView>,
}

impl View for Manifest {
    type V = ManifestView;

    open spec fn view(&self) -> ManifestView {
        ManifestView {
            source_archive: self.source_archive@,
            archive_size: self.archive_size,
            archive_hash: self.archive_hash,
            alignment: self.alignment,
            has_toc: self.has_toc,
            has_itoc: self.has_itoc,
            direct_itoc: self.direct_itoc,
            p5r: self.p5r,
            version: self.version,
            revision: self.revision,
            update_date_time: self.update_date_time,
            entries: entries_view(self.entries@),
        }
    }
}

/// The value of the line `n`, which must have this key.
pub open spec fn value_of(lines: Seq<Seq<char>>, n: int, key: Seq<char>) -> Result<
    Seq<char>,
    Seq<char>,
> {
    if n >= lines.len() {
        Err("manifest is missing "@ + key)
    } else {
        let line = lines[n];
        let tab = find_from(line, '\t', 0);
        if line.subrange(0, tab) != key {
            Err("manifest expected "@ + key)
        } else if tab >= line.len() {
            Err("manifest "@ + key + " has no value"@)
        } else {
            Ok(line.subrange(tab + 1, line.len() as int))
        }
    }
}

/// The number in a field.
pub open spec fn number_of_field(text: Seq<char>, name: Seq<char>, radix: int) -> Result<
    u64,
    Seq<char>,
> {
    match number_in(text, radix, u64::MAX as int) {
        Some(v) => Ok(v as u64),
        None => Err("invalid manifest "@ + name),
    }
}

/// The number in the line `n`, which must have this key.
pub open spec fn number_line(lines: Seq<Seq<char>>, n: int, key: Seq<char>, radix: int) -> Result<
    u64,
    Seq<char>,
> {
    match value_of(lines, n, key) {
        Err(e) => Err(e),
        Ok(text) => number_of_field(text, key, radix),
    }
}

/// The truth value in the line `n`, which must have this key.
pub open spec fn bool_line(lines: Seq<Seq<char>>, n: int, key: Seq<char>) -> Result<
    bool,
    Seq<char>,
> {
    match value_of(lines, n, key) {
        Err(e) => Err(e),
        Ok(text) => if text == "0"@ {
            Ok(false)
        } else if text == "1"@ {
            Ok(true)
        } else {
            Err("invalid manifest "@ + key)
        },
    }
}

/// The encoded text in the line `n`, which must have this key.
pub open spec fn text_line(lines: Seq<Seq<char>>, n: int, key: Seq<char>) -> Result<
    Seq<char>,
    Seq<char>,
> {
    match value_of(lines, n, key) {
        Err(e) => Err(e),
        Ok(text) => decoded(text),
    }
}

/// `v` in 16 bits, or the error.
pub open spec fn in16(v: u64, error: Seq<char>) -> Result<u16, Seq<char>> {
    if v <= u16::MAX {
        Ok(v as u16)
    } else {
        Err(error)
    }
}

/// The number in the line `n`, in 16 bits.
pub open spec fn alignment_line(lines: Seq<Seq<char>>) -> Result<u16, Seq<char>> {
    match number_line(lines, 4, "alignment"@, 10) {
        Err(e) => Err(e),
        Ok(v) => in16(v, "manifest alignment exceeds u16"@),
    }
}

/// The version and the revision: both are numbers before either is narrowed.
pub open spec fn version_lines(lines: Seq<Seq<char>>) -> Result<(u16, u16), Seq<char>> {
    match number_line(lines, 9, "version"@, 10) {
        Err(e) => Err(e),
        Ok(version) => match number_line(lines, 10, "revision"@, 10) {
            Err(e) => Err(e),
            Ok(revision) => match in16(version, "manifest version exceeds u16"@) {
                Err(e) => Err(e),
                Ok(v) => match in16(revision, "manifest revision exceeds u16"@) {
                    Err(e) => Err(e),
                    Ok(r) => Ok((v, r)),
                },
            },
        },
    }
}

/// The lines in front of the entries.
pub open spec fn head_of(lines: Seq<Seq<char>>) -> Result<ManifestView, Seq<char>> {
    let source = text_line(lines, 1, "source"@);
    let size = number_line(lines, 2, "archive_size"@, 10);
    let hash = number_line(lines, 3, "archive_hash"@, 16);
    let alignment = alignment_line(lines);
    let has_toc = bool_line(lines, 5, "has_toc"@);
    let has_itoc = bool_line(lines, 6, "has_itoc"@);
    let direct_itoc = bool_line(lines, 7, "direct_itoc"@);
    let p5r = bool_line(lines, 8, "p5r"@);
    let versions = version_lines(lines);
    let time = number_line(lines, 11, "update_date_time"@, 10);
    if lines.len() == 0 || lines[0] != MANIFEST_MAGIC@ {
        Err("unsupported CPK manifest version"@)
    } else if source is Err {
        Err(source->Err_0)
    } else if size is Err {
        Err(size->Err_0)
    } else if hash is Err {
        Err(hash->Err_0)
    } else if alignment is Err {
        Err(alignment->Err_0)
    } else if has_toc is Err {
        Err(has_toc->Err_0)
    } else if has_itoc is Err {
        Err(has_itoc->Err_0)
    } else if direct_itoc is Err {
        Err(direct_itoc->Err_0)
    } else if p5r is Err {
        Err(p5r->Err_0)
    } else if versions is Err {
        Err(versions->Err_0)
    } else if time is Err {
        Err(time->Err_0)
    } else {
        Ok(
            ManifestView {
                source_archive: source->Ok_0,
                archive_size: size->Ok_0,
                archive_hash: hash->Ok_0,
                alignment: alignment->Ok_0,
                has_toc: has_toc->Ok_0,
                has_itoc: has_itoc->Ok_0,
                direct_itoc: direct_itoc->Ok_0,
                p5r: p5r->Ok_0,
                version: versions->Ok_0.0,
                revision: versions->Ok_0.1,
                update_date_time: time->Ok_0,
                entries: Seq::empty(),
            },
        )
    }
}

/// The field `n` of an entry.
pub open spec fn entry_field(fields: Seq<Seq<char>>, n: int, name: Seq<char>) -> Result<
    Seq<char>,
    Seq<char>,
> {
    if n >= fields.len() {
        Err("manifest is missing "@ + name)
    } else {
        Ok(fields[n])
    }
}

/// The number in the field `n` of an entry.
pub open spec fn entry_number(fields: Seq<Seq<char>>, n: int, name: Seq<char>, radix: int) -> Result<
    u64,
    Seq<char>,
> {
    match entry_field(fields, n, name) {
        Err(e) => Err(e),
        Ok(text) => number_of_field(text, name, radix),
    }
}

/// The encoded text in the field `n` of an entry.
pub open spec fn entry_text(fields: Seq<Seq<char>>, n: int, name: Seq<char>) -> Result<
    Seq<char>,
    Seq<char>,
> {
    match entry_field(fields, n, name) {
        Err(e) => Err(e),
        Ok(text) => decoded(text),
    }
}

/// The entry that a line describes.
#[verifier::opaque]
pub open spec fn entry_of(line: Seq<char>) -> Result<EntryView, Seq<char>> {
    let fields = parts_of(line, '\t');
    let id = entry_number(fields, 1, "entry ID"@, 10);
    let extracted_size = entry_number(fields, 2, "extracted size"@, 10);
    let extracted_hash = entry_number(fields, 3, "extracted hash"@, 16);
    let packed_size = entry_number(fields, 4, "packed size"@, 10);
    let packed_offset = entry_number(fields, 5, "packed offset"@, 10);
    let packed_hash = entry_number(fields, 6, "packed hash"@, 16);
    let directory = entry_text(fields, 7, "entry directory"@);
    let file_name = entry_text(fields, 8, "entry file name"@);
    let user_string = entry_text(fields, 9, "entry user string"@);
    if fields[0] != "entry"@ {
        Err("unknown CPK manifest record"@)
    } else if id is Err {
        Err(id->Err_0)
    } else if extracted_size is Err {
        Err(extracted_size->Err_0)
    } else if extracted_hash is Err {
        Err(extracted_hash->Err_0)
    } else if packed_size is Err {
        Err(packed_size->Err_0)
    } else if packed_offset is Err {
        Err(packed_offset->Err_0)
    } else if packed_hash is Err {
        Err(packed_hash->Err_0)
    } else if directory is Err {
        Err(directory->Err_0)
    } else if file_name is Err {
        Err(file_name->Err_0)
    } else if user_string is Err {
        Err(user_string->Err_0)
    } else if fields.len() > 10 {
        Err("too many fields in CPK manifest entry"@)
    } else if id->Ok_0 > u32::MAX {
        Err("manifest entry ID exceeds u32"@)
    } else if packed_size->Ok_0 > u32::MAX {
        Err("manifest packed size exceeds u32"@)
    } else {
        Ok(
            EntryView {
                directory: directory->Ok_0,
                file_name: file_name->Ok_0,
                id: id->Ok_0 as u32,
                user_string: user_string->Ok_0,
                extracted_size: extracted_size->Ok_0,
                extracted_hash: extracted_hash->Ok_0,
                packed_size: packed_size->Ok_0 as u32,
                packed_offset: packed_offset->Ok_0,
                packed_hash: packed_hash->Ok_0,
            },
        )
    }
}

/// The entries of the lines behind the head and before `end`; empty lines are
/// passed over.
pub open spec fn entries_upto(lines: Seq<Seq<char>>, end: int) -> Result<
    Seq<EntryView>,
    Seq<char>,
>
    decreases end,
{
    if end <= 12 {
        Ok(Seq::empty())
    } else {
        match entries_upto(lines, end - 1) {
            Err(e) => Err(e),
            Ok(entries) => if lines[end - 1].len() == 0 {
                Ok(entries)
            } else {
                match entry_of(lines[end - 1]) {
                    Err(e) => Err(e),
                    Ok(entry) => Ok(entries.push(entry)),
                }
            },
        }
    }
}

/// The manifest that a text holds.
pub open spec fn manifest_of(text: Seq<char>) -> Result<ManifestView, Seq<char>> {
    let lines = lines_of(text);
    match head_of(lines) {
        Err(e) => Err(e),
        Ok(head) => match entries_upto(lines, lines.len() as int) {
            Err(e) => Err(e),
            Ok(entries) => if !head.has_toc && !head.has_itoc {
                Err("manifest contains neither TOC nor ITOC"@)
            } else if head.direct_itoc && !head.has_itoc {
                Err("direct ITOC flag without ITOC"@)
            } else {
                Ok(ManifestView { entries, ..head })
            },
        },
    }
}

/// A key and its value, as a line.
pub open spec fn pair_line(key: Seq<char>, value: Seq<char>) -> Seq<char> {
    key + seq!['\t'] + value
}

/// A number in sixteen hexadecimal digits.
pub open spec fn hash_text(v: u64) -> Seq<char> {
    zero_padded(numeral(v as nat, 16), 16)
}

/// A truth value as a digit.
pub open spec fn bool_text(v: bool) -> Seq<char> {
    if v {
        "1"@
    } else {
        "0"@
    }
}

/// The lines in front of the entries.
pub open spec fn head_lines(m: ManifestView) -> Seq<Seq<char>> {
    seq![
        MANIFEST_MAGIC@,
        pair_line("source"@, encoded(m.source_archive)),
        pair_line("archive_size"@, numeral(m.archive_size as nat, 10)),
        pair_line("archive_hash"@, hash_text(m.archive_hash)),
        pair_line("alignment"@, numeral(m.alignment as nat, 10)),
        pair_line("has_toc"@, bool_text(m.has_toc)),
        pair_line("has_itoc"@, bool_text(m.has_itoc)),
        pair_line("direct_itoc"@, bool_text(m.direct_itoc)),
        pair_line("p5r"@, bool_text(m.p5r)),
        pair_line("version"@, numeral(m.version as nat, 10)),
        pair_line("revision"@, numeral(m.revision as nat, 10)),
        pair_line("update_date_time"@, numeral(m.update_date_time as nat, 10)),
    ]
}

/// The fields of an entry's line.
pub open spec fn entry_fields(e: EntryView) -> Seq<Seq<char>> {
    seq![
        "entry"@,
        numeral(e.id as nat, 10),
        numeral(e.extracted_size as nat, 10),
        hash_text(e.extracted_hash),
        numeral(e.packed_size as nat, 10),
        numeral(e.packed_offset as nat, 10),
        hash_text(e.packed_hash),
        encoded(e.directory),
        encoded(e.file_name),
        encoded(e.user_string),
    ]
}

/// The first `count` fields, with tabs between them.
pub open spec fn tabbed(fields: Seq<Seq<char>>, count: nat) -> Seq<char>
    decreases count,
{
    if count == 0 {
        Seq::empty()
    } else if count == 1 {
        fields[0]
    } else {
        tabbed(fields, (count - 1) as nat) + seq!['\t'] + fields[count - 1]
    }
}

/// The line of an entry.
pub open spec fn entry_line(e: EntryView) -> Seq<char> {
    tabbed(entry_fields(e), 10)
}

/// All lines of a manifest.
pub open spec fn manifest_lines(m: ManifestView) -> Seq<Seq<char>> {
    head_lines(m) + Seq::new(m.entries.len(), |i: int| entry_line(m.entries[i]))
}

/// The first `count` lines, each with a line feed behind it.
pub open spec fn unlines(lines: Seq<Seq<char>>, count: nat) -> Seq<char>
    decreases count,
{
    if count == 0 {
        Seq::empty()
    } else {
        unlines(lines, (count - 1) as nat) + lines[count - 1] + seq!['\n']
    }
}

/// The text of a manifest.
pub open spec fn manifest_text(m: ManifestView) -> Seq<char> {
    unlines(manifest_lines(m), manifest_lines(m).len())
}

fn error(message: &str) -> (e: ManifestError)
    ensures
        e@ == message@,
{
    ManifestError { message: message.to_owned() }
}

fn error_about(front: &str, name: &str) -> (e: ManifestError)
    ensures
        e@ == front@ + name@,
{
    let mut message = front.to_owned();
    message.append(name);
    ManifestError { message }
}

fn chars_are(chars: &Vec<char>, text: &str) -> (yes: bool)
    ensures
        yes == (chars@ == text@),
{
    let other = to_chars(text);
    if chars.len() != other.len() {
        return false;
    }
    let mut i: usize = 0;
    while i < chars.len()
        invariant
            i <= chars@.len(),
            chars@.len() == other@.len(),
            other@ == text@,
            forall|k: int| 0 <= k < i ==> chars@[k] == other@[k],
        decreases chars@.len() - i,
    {
        if chars[i] != other[i] {
            return false;
        }
        i = i + 1;
    }
    assert(chars@ =~= other@);
    true
}

/// The value of the line `n`, which must have this key.
fn required_value(lines: &Vec<Vec<char>>, n: usize, key: &str) -> (r: Result<
    Vec<char>,
    ManifestError,
>)
    ensures
        match value_of(texts(lines@), n as int, key@) {
            Ok(value) => r matches Ok(v) && v@ == value,
            Err(e) => r matches Err(f) && f@ == e,
        },
{
    if n >= lines.len() {
        return Err(error_about("manifest is missing ", key));
    }
    let (found, value) = split_key(&lines[n]);
    if !chars_are(&found, key) {
        return Err(error_about("manifest expected ", key));
    }
    match value {
        Some(value) => Ok(value),
        None => {
            let mut e = error_about("manifest ", key);
            e.message.append(" has no value");
            Err(e)
        },
    }
}

fn parse_field(text: &Vec<char>, name: &str, radix: u64) -> (r: Result<u64, ManifestError>)
    requires
        2 <= radix <= 16,
    ensures
        match number_of_field(text@, name@, radix as int) {
            Ok(value) => r matches Ok(v) && v == value,
            Err(e) => r matches Err(f) && f@ == e,
        },
{
    match parse_number(text, radix, u64::MAX) {
        Some(v) => Ok(v),
        None => Err(error_about("invalid manifest ", name)),
    }
}

fn number_value(lines: &Vec<Vec<char>>, n: usize, key: &str, radix: u64) -> (r: Result<
    u64,
    ManifestError,
>)
    requires
        2 <= radix <= 16,
    ensures
        match number_line(texts(lines@), n as int, key@, radix as int) {
            Ok(value) => r matches Ok(v) && v == value,
            Err(e) => r matches Err(f) && f@ == e,
        },
{
    match required_value(lines, n, key) {
        Ok(text) => parse_field(&text, key, radix),
        Err(e) => Err(e),
    }
}

fn bool_value(lines: &Vec<Vec<char>>, n: usize, key: &str) -> (r: Result<bool, ManifestError>)
    ensures
        match bool_line(texts(lines@), n as int, key@) {
            Ok(value) => r matches Ok(v) && v == value,
            Err(e) => r matches Err(f) && f@ == e,
        },
{
    match required_value(lines, n, key) {
        Ok(text) => if chars_are(&text, "0") {
            Ok(false)
        } else if chars_are(&text, "1") {
            Ok(true)
        } else {
            Err(error_about("invalid manifest ", key))
        },
        Err(e) => Err(e),
    }
}

fn text_value(lines: &Vec<Vec<char>>, n: usize, key: &str) -> (r: Result<String, ManifestError>)
    ensures
        match text_line(texts(lines@), n as int, key@) {
            Ok(value) => r matches Ok(v) && v@ == value,
            Err(e) => r matches Err(f) && f@ == e,
        },
{
    match required_value(lines, n, key) {
        Ok(text) => match decode_field(&text) {
            Ok(value) => Ok(value),
            Err(message) => Err(ManifestError { message }),
        },
        Err(e) => Err(e),
    }
}

fn narrow(v: u64, message: &str) -> (r: Result<u16, ManifestError>)
    ensures
        match in16(v, message@) {
            Ok(value) => r matches Ok(w) && w == value,
            Err(e) => r matches Err(f) && f@ == e,
        },
{
    if v <= u16::MAX as u64 {
        Ok(v as u16)
    } else {
        Err(error(message))
    }
}

fn alignment_value(lines: &Vec<Vec<char>>) -> (r: Result<u16, ManifestError>)
    ensures
        match alignment_line(texts(lines@)) {
            Ok(value) => r matches Ok(v) && v == value,
            Err(e) => r matches Err(f) && f@ == e,
        },
{
    match number_value(lines, 4, "alignment", 10) {
        Ok(v) => narrow(v, "manifest alignment exceeds u16"),
        Err(e) => Err(e),
    }
}

fn version_values(lines: &Vec<Vec<char>>) -> (r: Result<(u16, u16), ManifestError>)
    ensures
        match version_lines(texts(lines@)) {
            Ok(value) => r matches Ok(v) && v == value,
            Err(e) => r matches Err(f) && f@ == e,
        },
{
    let version: u64 = match number_value(lines, 9, "version", 10) {
        Ok(v) => v,
        Err(e) => {
            return Err(e);
        },
    };
    let revision: u64 = match number_value(lines, 10, "revision", 10) {
        Ok(v) => v,
        Err(e) => {
            return Err(e);
        },
    };
    let version: u16 = match narrow(version, "manifest version exceeds u16") {
        Ok(v) => v,
        Err(e) => {
            return Err(e);
        },
    };
    match narrow(revision, "manifest revision exceeds u16") {
        Ok(revision) => Ok((version, revision)),
        Err(e) => Err(e),
    }
}

/// The lines in front of the entries.
fn parse_head(lines: &Vec<Vec<char>>) -> (r: Result<Manifest, ManifestError>)
    ensures
        match head_of(texts(lines@)) {
            Ok(head) => r matches Ok(m) && m@ == head,
            Err(e) => r matches Err(f) && f@ == e,
        },
{
    if lines.len() == 0 || !chars_are(&lines[0], MANIFEST_MAGIC) {
        return Err(error("unsupported CPK manifest version"));
    }
    let source_archive = match text_value(lines, 1, "source") {
        Ok(v) => v,
        Err(e) => {
            return Err(e);
        },
    };
    let archive_size: u64 = match number_value(lines, 2, "archive_size", 10) {
        Ok(v) => v,
        Err(e) => {
            return Err(e);
        },
    };
    let archive_hash: u64 = match number_value(lines, 3, "archive_hash", 16) {
        Ok(v) => v,
        Err(e) => {
            return Err(e);
        },
    };
    let alignment: u16 = match alignment_value(lines) {
        Ok(v) => v,
        Err(e) => {
            return Err(e);
        },
    };
    let has_toc = match bool_value(lines, 5, "has_toc") {
        Ok(v) => v,
        Err(e) => {
            return Err(e);
        },
    };
    let has_itoc = match bool_value(lines, 6, "has_itoc") {
        Ok(v) => v,
        Err(e) => {
            return Err(e);
        },
    };
    let direct_itoc = match bool_value(lines, 7, "direct_itoc") {
        Ok(v) => v,
        Err(e) => {
            return Err(e);
        },
    };
    let p5r = match bool_value(lines, 8, "p5r") {
        Ok(v) => v,
        Err(e) => {
            return Err(e);
        },
    };
    let (version, revision) = match version_values(lines) {
        Ok(v) => v,
        Err(e) => {
            return Err(e);
        },
    };
    let update_date_time: u64 = match number_value(lines, 11, "update_date_time", 10) {
        Ok(v) => v,
        Err(e) => {
            return Err(e);
        },
    };
    let m = Manifest {
        source_archive,
        archive_size,
        archive_hash,
        alignment,
        has_toc,
        has_itoc,
        direct_itoc,
        p5r,
        version,
        revision,
        update_date_time,
        entries: Vec::new(),
    };
    assert(m@ =~= head_of(texts(lines@))->Ok_0);
    Ok(m)
}

fn next_number(fields: &Vec<Vec<char>>, n: usize, name: &str, radix: u64) -> (r: Result<
    u64,
    ManifestError,
>)
    requires
        2 <= radix <= 16,
    ensures
        match entry_number(texts(fields@), n as int, name@, radix as int) {
            Ok(value) => r matches Ok(v) && v == value,
            Err(e) => r matches Err(f) && f@ == e,
        },
{
    if n >= fields.len() {
        return Err(error_about("manifest is missing ", name));
    }
    parse_field(&fields[n], name, radix)
}

fn next_text(fields: &Vec<Vec<char>>, n: usize, name: &str) -> (r: Result<String, ManifestError>)
    ensures
        match entry_text(texts(fields@), n as int, name@) {
            Ok(value) => r matches Ok(v) && v@ == value,
            Err(e) => r matches Err(f) && f@ == e,
        },
{
    if n >= fields.len() {
        return Err(error_about("manifest is missing ", name));
    }
    match decode_field(&fields[n]) {
        Ok(value) => Ok(value),
        Err(message) => Err(ManifestError { message }),
    }
}

/// The entry that a line describes.
fn parse_entry(line: &Vec<char>) -> (r: Result<ManifestEntry, ManifestError>)
    ensures
        match entry_of(line@) {
            Ok(entry) => r matches Ok(v) && v@ == entry,
            Err(e) => r matches Err(f) && f@ == e,
        },
{
    reveal(entry_of);
    let fields = split_on(line, '\t');
    assert(texts(fields@).len() > 0);
    assert(texts(fields@)[0] == fields@[0]@);
    if !chars_are(&fields[0], "entry") {
        return Err(error("unknown CPK manifest record"));
    }
    let id: u64 = match next_number(&fields, 1, "entry ID", 10) {
        Ok(v) => v,
        Err(e) => {
            return Err(e);
        },
    };
    let extracted_size: u64 = match next_number(&fields, 2, "extracted size", 10) {
        Ok(v) => v,
        Err(e) => {
            return Err(e);
        },
    };
    let extracted_hash: u64 = match next_number(&fields, 3, "extracted hash", 16) {
        Ok(v) => v,
        Err(e) => {
            return Err(e);
        },
    };
    let packed_size: u64 = match next_number(&fields, 4, "packed size", 10) {
        Ok(v) => v,
        Err(e) => {
            return Err(e);
        },
    };
    let packed_offset: u64 = match next_number(&fields, 5, "packed offset", 10) {
        Ok(v) => v,
        Err(e) => {
            return Err(e);
        },
    };
    let packed_hash: u64 = match next_number(&fields, 6, "packed hash", 16) {
        Ok(v) => v,
        Err(e) => {
            return Err(e);
        },
    };
    let directory = match next_text(&fields, 7, "entry directory") {
        Ok(v) => v,
        Err(e) => {
            return Err(e);
        },
    };
    let file_name = match next_text(&fields, 8, "entry file name") {
        Ok(v) => v,
        Err(e) => {
            return Err(e);
        },
    };
    let user_string = match next_text(&fields, 9, "entry user string") {
        Ok(v) => v,
        Err(e) => {
            return Err(e);
        },
    };
    if fields.len() > 10 {
        return Err(error("too many fields in CPK manifest entry"));
    }
    if id > u32::MAX as u64 {
        return Err(error("manifest entry ID exceeds u32"));
    }
    if packed_size > u32::MAX as u64 {
        return Err(error("manifest packed size exceeds u32"));
    }
    Ok(
        ManifestEntry {
            directory,
            file_name,
            id: id as u32,
            user_string,
            extracted_size,
            extracted_hash,
            packed_size: packed_size as u32,
            packed_offset,
            packed_hash,
        },
    )
}

proof fn lemma_entries_error(lines: Seq<Seq<char>>, few: int, many: int)
    requires
        few <= many,
        entries_upto(lines, few) is Err,
    ensures
        entries_upto(lines, many) == entries_upto(lines, few),
    decreases many - few,
{
    if few < many {
        lemma_entries_error(lines, few, many - 1);
        assert(many > 12);
    }
}

/// The entries of the lines behind the head.
fn parse_entries(lines: &Vec<Vec<char>>) -> (r: Result<Vec<ManifestEntry>, ManifestError>)
    ensures
        match entries_upto(texts(lines@), lines@.len() as int) {
            Ok(entries) => r matches Ok(v) && entries_view(v@) == entries,
            Err(e) => r matches Err(f) && f@ == e,
        },
{
    let ghost all = texts(lines@);
    let mut entries: Vec<ManifestEntry> = Vec::new();
    let mut n: usize = 12;
    assert(entries_view(entries@) =~= Seq::empty());
    if lines.len() < 12 {
        return Ok(entries);
    }
    while n < lines.len()
        invariant
            12 <= n <= lines@.len(),
            all == texts(lines@),
            entries_upto(all, n as int) == Ok::<Seq<EntryView>, Seq<char>>(entries_view(entries@)),
        decreases lines@.len() - n,
    {
        assert(all[n as int] == lines@[n as int]@);
        if lines[n].len() != 0 {
            match parse_entry(&lines[n]) {
                Ok(entry) => {
                    let ghost before = entries@;
                    entries.push(entry);
                    assert(entries_view(entries@) =~= entries_view(before).push(entry@));
                },
                Err(e) => {
                    proof {
                        lemma_entries_error(all, n + 1, all.len() as int);
                    }
                    return Err(e);
                },
            }
        }
        n = n + 1;
    }
    Ok(entries)
}

fn push_pair(out: &mut String, key: &str, value: &str)
    ensures
        final(out)@ == old(out)@ + pair_line(key@, value@) + seq!['\n'],
{
    let ghost before = out@;
    proof {
        reveal_strlit("\t");
        reveal_strlit("\n");
    }
    out.append(key);
    out.append("\t");
    out.append(value);
    out.append("\n");
    assert(out@ =~= before + pair_line(key@, value@) + seq!['\n']);
}

fn hash_string(v: u64) -> (text: String)
    ensures
        text@ == hash_text(v),
{
    pad_zeros(hexadecimal(v), 16)
}

fn bool_str(v: bool) -> (text: &'static str)
    ensures
        text@ == bool_text(v),
{
    if v {
        "1"
    } else {
        "0"
    }
}

fn push_tabbed(out: &mut String, text: &str)
    ensures
        final(out)@ == old(out)@ + seq!['\t'] + text@,
{
    let ghost before = out@;
    proof {
        reveal_strlit("\t");
    }
    out.append("\t");
    out.append(text);
    assert(out@ =~= before + seq!['\t'] + text@);
}

/// The line of an entry.
fn entry_string(entry: &ManifestEntry) -> (line: String)
    ensures
        line@ == entry_line(entry@),
{
    let mut line = "entry".to_owned();
    push_tabbed(&mut line, decimal(entry.id as u64).as_str());
    push_tabbed(&mut line, decimal(entry.extracted_size).as_str());
    push_tabbed(&mut line, hash_string(entry.extracted_hash).as_str());
    push_tabbed(&mut line, decimal(entry.packed_size as u64).as_str());
    push_tabbed(&mut line, decimal(entry.packed_offset).as_str());
    push_tabbed(&mut line, hash_string(entry.packed_hash).as_str());
    push_tabbed(&mut line, encode_field(entry.directory.as_str()).as_str());
    push_tabbed(&mut line, encode_field(entry.file_name.as_str()).as_str());
    push_tabbed(&mut line, encode_field(entry.user_string.as_str()).as_str());
    proof {
        reveal_with_fuel(tabbed, 10);
    }
    line
}

impl Manifest {
    /// The manifest in the text of a manifest file; none where there is no file.
    pub fn read(text: Option<&str>) -> (r: Result<Option<Manifest>, ManifestError>)
        ensures
            match text {
                None => r == Ok::<Option<Manifest>, ManifestError>(None),
                Some(t) => match manifest_of(t@) {
                    Ok(manifest) => r matches Ok(Some(m)) && m@ == manifest,
                    Err(e) => r matches Err(f) && f@ == e,
                },
            },
    {
        let text = match text {
            Some(text) => text,
            None => {
                return Ok(None);
            },
        };
        let lines = split_lines(&to_chars(text));
        assert(texts(lines@).len() == lines@.len());
        let head = match parse_head(&lines) {
            Ok(head) => head,
            Err(e) => {
                return Err(e);
            },
        };
        let entries = match parse_entries(&lines) {
            Ok(entries) => entries,
            Err(e) => {
                return Err(e);
            },
        };
        if !head.has_toc && !head.has_itoc {
            return Err(error("manifest contains neither TOC nor ITOC"));
        }
        if head.direct_itoc && !head.has_itoc {
            return Err(error("direct ITOC flag without ITOC"));
        }
        let manifest = Manifest {
            source_archive: head.source_archive,
            archive_size: head.archive_size,
            archive_hash: head.archive_hash,
            alignment: head.alignment,
            has_toc: head.has_toc,
            has_itoc: head.has_itoc,
            direct_itoc: head.direct_itoc,
            p5r: head.p5r,
            version: head.version,
            revision: head.revision,
            update_date_time: head.update_date_time,
            entries,
        };
        Ok(Some(manifest))
    }

    /// The text of the manifest file.
    pub fn write(&self) -> (text: String)
        ensures
            text@ == manifest_text(self@),
    {
        let ghost lines = manifest_lines(self@);
        let mut out = MANIFEST_MAGIC.to_owned();
        proof {
            reveal_strlit("\n");
            assert("\n"@ =~= seq!['\n']);
        }
        out.append("\n");
        push_pair(&mut out, "source", encode_field(self.source_archive.as_str()).as_str());
        push_pair(&mut out, "archive_size", decimal(self.archive_size).as_str());
        push_pair(&mut out, "archive_hash", hash_string(self.archive_hash).as_str());
        push_pair(&mut out, "alignment", decimal(self.alignment as u64).as_str());
        push_pair(&mut out, "has_toc", bool_str(self.has_toc));
        push_pair(&mut out, "has_itoc", bool_str(self.has_itoc));
        push_pair(&mut out, "direct_itoc", bool_str(self.direct_itoc));
        push_pair(&mut out, "p5r", bool_str(self.p5r));
        push_pair(&mut out, "version", decimal(self.version as u64).as_str());
        push_pair(&mut out, "revision", decimal(self.revision as u64).as_str());
        push_pair(&mut out, "update_date_time", decimal(self.update_date_time).as_str());
        proof {
            lemma_head_text(self@);
        }
        let mut i: usize = 0;
        while i < self.entries.len()
            invariant
                i <= self.entries@.len(),
                lines == manifest_lines(self@),
                "\n"@ == seq!['\n'],
                out@ == unlines(lines, (12 + i) as nat),
            decreases self.entries@.len() - i,
        {
            let ghost before = out@;
            let line = entry_string(&self.entries[i]);
            out.append(line.as_str());
            out.append("\n");
            assert(lines[12 + i] == line@);
            i = i + 1;
            assert(out@ =~= before + line@ + seq!['\n']);
        }
        out
    }

    /// The profile of the archive that is rebuilt.
    pub fn writer_profile(&self) -> (profile: CpkWriterProfile)
        requires
            self.has_toc || self.has_itoc,
        ensures
            profile@ == rebuild_profile(self@),
    {
        let index_mode = if self.has_toc && self.has_itoc {
            CpkIndexMode::TocAndItoc
        } else if self.has_toc {
            CpkIndexMode::Toc
        } else {
            CpkIndexMode::Itoc
        };
        let default = CpkWriterProfile::default();
        CpkWriterProfile {
            index_mode,
            direct_itoc: self.direct_itoc,
            version: self.version,
            revision: self.revision,
            update_date_time: self.update_date_time,
            tvers: default.tvers,
            comment: default.comment,
        }
    }

    /// Whether the source archive is still the one that was unpacked. `found`
    /// is its size and hash, if there is such a file.
    pub fn source_is_original(&self, found: Option<(u64, u64)>) -> (yes: bool)
        ensures
            yes == (found == Some((self.archive_size, self.archive_hash))),
    {
        match found {
            Some((size, hash)) => size == self.archive_size && hash == self.archive_hash,
            None => false,
        }
    }
}

/// The profile of the archive that is rebuilt from a manifest.
pub open spec fn rebuild_profile(m: ManifestView) -> ProfileView {
    ProfileView {
        index_mode: if m.has_toc && m.has_itoc {
            CpkIndexMode::TocAndItoc
        } else if m.has_toc {
            CpkIndexMode::Toc
        } else {
            CpkIndexMode::Itoc
        },
        direct_itoc: m.direct_itoc,
        version: m.version,
        revision: m.revision,
        update_date_time: m.update_date_time,
        ..default_profile()
    }
}

/// The text of the lines in front of the entries.
proof fn lemma_head_text(m: ManifestView)
    ensures
        ({
            let h = head_lines(m);
            let n = seq!['\n'];
            unlines(manifest_lines(m), 12) == h[0] + n + h[1] + n + h[2] + n + h[3] + n + h[4] + n
                + h[5] + n + h[6] + n + h[7] + n + h[8] + n + h[9] + n + h[10] + n + h[11] + n
        }),
{
    let lines = manifest_lines(m);
    let h = head_lines(m);
    assert(forall|i: int| 0 <= i < 12 ==> lines[i] == h[i]);
    reveal_with_fuel(unlines, 13);
    assert(Seq::<char>::empty() + h[0] =~= h[0]);
}

} // verus!
