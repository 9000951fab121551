//! How an archive is unpacked.

use vstd::prelude::*;
use vstd::string::*;

use crate::cli::arguments::CliError;
use crate::cpk::compress::FileDecompressor;
use crate::cpk::encrypt::data::FileDecryptor;
use crate::cpk::file::{CpkFile, CpkFileView};
use crate::cpk::reader::{extracted, CpkMetadata, CpkReader, ReaderView};
use crate::manifest::hash::{hash_bytes, hash_of};
use crate::manifest::laws::law_manifest_roundtrip;
use crate::manifest::model::{
    entries_view, manifest_of, manifest_text, EntryView, Manifest, ManifestEntry, ManifestView,
    MANIFEST_FILE_NAME,
};
use crate::manifest::paths::{output_components, safe_output_path, strings_view};
use crate::utils::text::str_eq;

verus! {

/// A file that is about to be unpacked.
#[derive(Debug)]
pub struct UnpackedFile {
    /// The parts of its path below the output directory.
    pub components: Vec<String>,
    /// Its bytes in the archive.
    pub packed: Vec<u8>,
    /// The bytes to write.
    pub extracted: Vec<u8>,
}

/// [`UnpackedFile`] with its fields as sequences.
pub struct UnpackedView {
    pub components: Seq<Seq<char>>,
    pub packed: Seq<u8>,
    pub extracted: Seq<u8>,
}

impl View for UnpackedFile {
    type V = UnpackedView;

    open spec fn view(&self) -> UnpackedView {
        UnpackedView {
            components: strings_view(self.components@),
            packed: self.packed@,
            extracted: self.extracted@,
        }
    }
}

/// The path is that of the manifest.
pub open spec fn is_manifest_path(components: Seq<Seq<char>>) -> bool {
    components == seq![MANIFEST_FILE_NAME@]
}

/// What a file is unpacked to. `manifest_path` is the manifest's path, for
/// messages.
pub open spec fn unpacked<E: FileDecryptor, D: FileDecompressor>(
    drives: bool,
    reader: ReaderView,
    file: CpkFileView,
    manifest_path: Seq<char>,
) -> Result<UnpackedView, Seq<char>> {
    match reader.packed(file) {
        Err(e) => Err(e.message_text()),
        Ok(packed) => match output_components(drives, file.directory, file.file_name) {
            Err(e) => Err(e),
            Ok(components) => if is_manifest_path(components) {
                Err("CPK entry conflicts with reserved manifest name: "@ + manifest_path)
            } else {
                Ok(
                    UnpackedView {
                        components,
                        packed,
                        extracted: extracted::<E, D>(file, packed),
                    },
                )
            },
        },
    }
}

/// What a file is unpacked to. `manifest_path` is the manifest's path, for
/// messages.
pub fn unpack_file<E: FileDecryptor, D: FileDecompressor>(
    drives: bool,
    reader: &mut CpkReader<E, D>,
    file: &CpkFile,
    manifest_path: &str,
) -> (r: Result<UnpackedFile, CliError>)
    ensures
        final(reader)@ == old(reader)@,
        match unpacked::<E, D>(drives, old(reader)@, file@, manifest_path@) {
            Ok(v) => r matches Ok(u) && u@ == v,
            Err(e) => r matches Err(f) && f@ == e,
        },
{
    let (packed, extracted) = match reader.extract_file_with_packed(file) {
        Ok(bytes) => bytes,
        Err(e) => {
            return Err(CliError { message: e.message() });
        },
    };
    let components = match safe_output_path(drives, file.directory(), file.file_name()) {
        Ok(components) => components,
        Err(e) => {
            return Err(CliError { message: e.message });
        },
    };
    if components.len() == 1 && str_eq(components[0].as_str(), MANIFEST_FILE_NAME) {
        assert(strings_view(components@) =~= seq![MANIFEST_FILE_NAME@]);
        let mut message = "CPK entry conflicts with reserved manifest name: ".to_owned();
        message.append(manifest_path);
        return Err(CliError { message });
    }
    proof {
        if is_manifest_path(strings_view(components@)) {
            assert(strings_view(components@).len() == 1);
            assert(strings_view(components@)[0] == components@[0]@);
        }
        assert(!is_manifest_path(strings_view(components@)));
    }
    Ok(UnpackedFile { components, packed, extracted })
}

/// What the manifest records of the file at `index` of the listing. A file
/// without an ID gets its place in the listing.
pub open spec fn record_of(file: CpkFileView, index: int, packed: Seq<u8>, extracted: Seq<u8>) -> Result<
    EntryView,
    Seq<char>,
> {
    if index > u32::MAX {
        Err("too many CPK files"@)
    } else {
        Ok(
            EntryView {
                directory: file.directory,
                file_name: file.file_name,
                id: match file.id {
                    Some(id) => id,
                    None => index as u32,
                },
                user_string: file.user_string,
                extracted_size: extracted.len() as u64,
                extracted_hash: hash_of(extracted),
                packed_size: file.file_size,
                packed_offset: file.absolute_offset,
                packed_hash: hash_of(packed),
            },
        )
    }
}

/// What the manifest records of the file at `index` of the listing.
pub fn record_file(file: &CpkFile, index: usize, packed: &Vec<u8>, extracted: &Vec<u8>) -> (r: Result<
    ManifestEntry,
    CliError,
>)
    ensures
        match record_of(file@, index as int, packed@, extracted@) {
            Ok(v) => r matches Ok(e) && e@ == v,
            Err(e) => r matches Err(f) && f@ == e,
        },
{
    if index as u64 > u32::MAX as u64 {
        return Err(CliError { message: "too many CPK files".to_owned() });
    }
    let id: u32 = match file.id() {
        Some(id) => id,
        None => index as u32,
    };
    Ok(
        ManifestEntry {
            directory: file.directory().to_owned(),
            file_name: file.file_name().to_owned(),
            id,
            user_string: file.user_string().to_owned(),
            extracted_size: extracted.len() as u64,
            extracted_hash: hash_bytes(extracted.as_slice()),
            packed_size: file.file_size(),
            packed_offset: file.absolute_offset(),
            packed_hash: hash_bytes(packed.as_slice()),
        },
    )
}

/// The manifest of an archive.
pub open spec fn manifest_for(
    source_archive: Seq<char>,
    archive_size: u64,
    archive_hash: u64,
    metadata: CpkMetadata,
    p5r: bool,
    entries: Seq<EntryView>,
) -> ManifestView {
    ManifestView {
        source_archive,
        archive_size,
        archive_hash,
        alignment: if metadata.align == 0 {
            1
        } else {
            metadata.align
        },
        has_toc: metadata.toc_offset != 0,
        has_itoc: metadata.itoc_offset != 0,
        direct_itoc: metadata.itoc_offset != 0 && metadata.eid != 0,
        p5r,
        version: metadata.version,
        revision: metadata.revision,
        update_date_time: metadata.update_date_time,
        entries,
    }
}

/// The manifest of an archive.
pub fn archive_manifest(
    source_archive: String,
    archive_size: u64,
    archive_hash: u64,
    metadata: &CpkMetadata,
    p5r: bool,
    entries: Vec<ManifestEntry>,
) -> (manifest: Manifest)
    ensures
        manifest@ == manifest_for(
            source_archive@,
            archive_size,
            archive_hash,
            *metadata,
            p5r,
            entries_view(entries@),
        ),
{
    let alignment: u16 = if metadata.align == 0 {
        1
    } else {
        metadata.align
    };
    Manifest {
        source_archive,
        archive_size,
        archive_hash,
        alignment,
        has_toc: metadata.toc_offset != 0,
        has_itoc: metadata.itoc_offset != 0,
        direct_itoc: metadata.itoc_offset != 0 && metadata.eid != 0,
        p5r,
        version: metadata.version,
        revision: metadata.revision,
        update_date_time: metadata.update_date_time,
        entries,
    }
}

/// The manifest that is written for an archive with an index is accepted when
/// it is read, and reads back as it was.
pub proof fn law_unpacked_manifest_reads_back(
    source_archive: Seq<char>,
    archive_size: u64,
    archive_hash: u64,
    metadata: CpkMetadata,
    p5r: bool,
    entries: Seq<EntryView>,
)
    requires
        metadata.toc_offset != 0 || metadata.itoc_offset != 0,
    ensures
        ({
            let m = manifest_for(
                source_archive,
                archive_size,
                archive_hash,
                metadata,
                p5r,
                entries,
            );
            manifest_of(manifest_text(m)) == Ok::<ManifestView, Seq<char>>(m)
        }),
{
    law_manifest_roundtrip(
        manifest_for(source_archive, archive_size, archive_hash, metadata, p5r, entries),
    );
}

/// The path of a file, for showing it.
pub open spec fn shown_path(file: CpkFileView) -> Seq<char> {
    if file.directory.len() == 0 {
        file.file_name
    } else {
        file.directory + "/"@ + file.file_name
    }
}

/// The path of a file, for showing it.
pub fn show_path(file: &CpkFile) -> (text: String)
    ensures
        text@ == shown_path(file@),
{
    if file.directory().unicode_len() == 0 {
        return file.file_name().to_owned();
    }
    let mut text = file.directory().to_owned();
    text.append("/");
    text.append(file.file_name());
    text
}

} // verus!
