//! What holds of unpacking an archive and packing it again.

use vstd::prelude::*;

use crate::cli::arguments::PackView;
use crate::cli::pack::rebuild_options_of;
use crate::cli::unpack::{manifest_for, record_of, shown_path, unpacked};
use crate::cpk::archive_laws::law_header_reads_back;
use crate::cpk::collect::FoundView;
use crate::cpk::compress::FileDecompressor;
use crate::cpk::encrypt::data::FileDecryptor;
use crate::cpk::file::CpkFileView;
use crate::cpk::input::RawView;
use crate::cpk::layout::{lemma_front, lemma_front_bounds, Job};
use crate::cpk::reader::{
    extracted, header_at, packed_bytes, CpkMetadata, CpkReaderError, ReaderView,
};
use crate::cpk::writer::{action_bytes, range_of, PayloadAction};
use crate::manifest::hash::{hash_of, law_hash_tells_a_changed_byte};
use crate::manifest::inputs::{all_inputs, StateView};
use crate::manifest::laws::law_manifest_roundtrip;
use crate::manifest::model::{
    manifest_of, manifest_text, rebuild_profile, EntryView, ManifestView,
};
use crate::manifest::paths::{
    law_safe_components_stay_inside, output_components, stays_inside,
};
use crate::manifest::rebuild_laws::{law_entries_keep_their_rows, lemma_all_present};
use crate::utils::bytes::stands_at;

verus! {

/// The manifest records this listing: each file with its packed and extracted
/// bytes.
pub open spec fn records(
    m: ManifestView,
    listing: Seq<CpkFileView>,
    packed: Seq<Seq<u8>>,
    extracted: Seq<Seq<u8>>,
) -> bool {
    &&& m.entries.len() == listing.len()
    &&& packed.len() == listing.len()
    &&& extracted.len() == listing.len()
    &&& forall|i: int|
        0 <= i < listing.len() ==> record_of(#[trigger] listing[i], i, packed[i], extracted[i])
            == Ok::<EntryView, Seq<char>>(m.entries[i])
}

/// The unpacked files are all there, with these contents.
pub open spec fn untouched(states: Seq<Option<StateView>>, extracted: Seq<Seq<u8>>) -> bool {
    &&& states.len() == extracted.len()
    &&& forall|i: int|
        0 <= i < extracted.len() ==> ((#[trigger] states[i]) matches Some(s) && s.size
            == extracted[i].len() && s.hash == hash_of(extracted[i]))
}

/// Packing an unpacked archive again keeps its rows: each file has the directory,
/// name, ID and user string that the archive listed, in the same order, and the
/// size it was unpacked to. Where packed bytes are reused, they are taken from
/// where the archive listed them; else the file is packed anew.
pub proof fn law_repacking_keeps_the_rows(
    drives: bool,
    m: ManifestView,
    listing: Seq<CpkFileView>,
    packed: Seq<Seq<u8>>,
    extracted: Seq<Seq<u8>>,
    states: Seq<Option<StateView>>,
    found: Seq<FoundView>,
    reuse: bool,
    source_found: Option<(u64, u64)>,
    i: int,
)
    requires
        records(m, listing, packed, extracted),
        untouched(states, extracted),
        all_inputs(drives, m, states, found, reuse, source_found) is Ok,
        0 <= i < listing.len(),
    ensures
        ({
            let file = all_inputs(drives, m, states, found, reuse, source_found)->Ok_0[i];
            &&& file.directory == listing[i].directory
            &&& file.file_name == listing[i].file_name
            &&& file.user_string == listing[i].user_string
            &&& file.id == match listing[i].id {
                Some(id) => id as int,
                None => i,
            }
            &&& file.extract_size == extracted[i].len()
            &&& file.raw_payload == if reuse {
                Some(
                    RawView {
                        archive_path: m.source_archive,
                        absolute_offset: listing[i].absolute_offset,
                        size: listing[i].file_size,
                    },
                )
            } else {
                None
            }
            &&& file.size == if reuse {
                listing[i].file_size as int
            } else {
                extracted[i].len() as int
            }
        }),
{
    assert forall|k: int| 0 <= k < m.entries.len() implies (#[trigger] states[k]) is Some by {}
    assert(record_of(listing[i], i, packed[i], extracted[i]) is Ok);
    assert(states[i] is Some);
    law_entries_keep_their_rows(drives, m, states, found, reuse, source_found, i);
    lemma_all_present(drives, m, states, reuse, m.entries.len(), i);
}

/// The bytes that are reused of an archive are the packed bytes that the reader
/// reads there.
pub proof fn law_reused_bytes_are_the_packed_bytes<E: FileDecryptor>(
    stream: Seq<u8>,
    file: CpkFileView,
)
    requires
        packed_bytes(stream, 0, file) is Ok,
    ensures
        action_bytes::<E>(
            PayloadAction::Reuse { absolute_offset: file.absolute_offset, size: file.file_size },
            stream,
        ) == packed_bytes(stream, 0, file)->Ok_0,
{
    assert(range_of(stream, file.absolute_offset as int, file.file_size as int) =~= packed_bytes(
        stream,
        0,
        file,
    )->Ok_0);
}

/// The manifest tells which indexes the archive has: an index is there where the
/// header gives its place, and the index by ID is direct where the header counts
/// extended IDs. The version, the revision and the time are those of the header,
/// and so is the alignment.
pub proof fn law_manifest_tells_the_index_model(
    source_archive: Seq<char>,
    archive_size: u64,
    archive_hash: u64,
    metadata: CpkMetadata,
    p5r: bool,
    entries: Seq<EntryView>,
)
    ensures
        ({
            let m = manifest_for(
                source_archive,
                archive_size,
                archive_hash,
                metadata,
                p5r,
                entries,
            );
            let profile = rebuild_profile(m);
            &&& m.has_toc <==> metadata.toc_offset > 0
            &&& m.has_itoc <==> metadata.itoc_offset > 0
            &&& m.direct_itoc <==> metadata.itoc_offset > 0 && metadata.eid > 0
            &&& metadata.align > 0 ==> m.alignment == metadata.align
            &&& metadata.align == 0 ==> m.alignment == 1
            &&& m.source_archive == source_archive
            &&& m.archive_size == archive_size
            &&& m.archive_hash == archive_hash
            &&& m.p5r == p5r
            &&& m.entries == entries
            &&& profile.direct_itoc == m.direct_itoc
            &&& profile.version == metadata.version
            &&& profile.revision == metadata.revision
            &&& profile.update_date_time == metadata.update_date_time
            &&& m.has_toc && m.has_itoc ==> profile.index_mode is TocAndItoc
            &&& m.has_toc && !m.has_itoc ==> profile.index_mode is Toc
            &&& !m.has_toc && m.has_itoc ==> profile.index_mode is Itoc
        }),
{
}

/// Unpacking an archive and rebuilding it keeps its profile. The manifest made of
/// an archive that was written gives back the indexes, whether the index by ID is
/// direct, the version, the revision, the time and the alignment that it was
/// written with, also when the manifest has been written and read in between.
pub proof fn law_rebuilding_keeps_the_profile(
    job: Job,
    payloads: Seq<Seq<u8>>,
    stream: Seq<u8>,
    start: int,
    source_archive: Seq<char>,
    archive_size: u64,
    archive_hash: u64,
    p5r: bool,
    entries: Seq<EntryView>,
    args: PackView,
    over_source: bool,
)
    requires
        job.problem() is None,
        job.payloads_match(payloads),
        stands_at(stream, start, job.archive(payloads)),
    ensures
        ({
            &&& header_at(stream, start) matches Ok(metadata)
            &&& manifest_of(
                manifest_text(
                    manifest_for(
                        source_archive,
                        archive_size,
                        archive_hash,
                        metadata,
                        p5r,
                        entries,
                    ),
                ),
            ) matches Ok(m)
            &&& rebuild_profile(m).index_mode == job.profile.index_mode
            &&& job.profile.index_mode !is Toc ==> rebuild_profile(m).direct_itoc
                == job.profile.direct_itoc
            &&& job.profile.index_mode is Toc ==> !rebuild_profile(m).direct_itoc
            &&& rebuild_profile(m).version == job.profile.version
            &&& rebuild_profile(m).revision == job.profile.revision
            &&& rebuild_profile(m).update_date_time == job.profile.update_date_time
            &&& m.entries == entries
            &&& m.p5r == p5r
            &&& args.alignment is None ==> (rebuild_options_of(m, args, over_source) matches Ok(o)
                ==> o.alignment == job.alignment)
        }),
{
    law_header_reads_back(job, payloads, stream, start);
    lemma_front(job);
    lemma_front_bounds(job);
    let metadata = header_at(stream, start)->Ok_0;
    let m = manifest_for(source_archive, archive_size, archive_hash, metadata, p5r, entries);
    law_manifest_roundtrip(m);
}

/// What the manifest records of a file: its row as the archive listed it, and the
/// sizes and hashes of its packed and its extracted bytes. A single changed byte
/// of the unpacked file shows.
pub proof fn law_records_tell_the_file(
    file: CpkFileView,
    index: int,
    packed: Seq<u8>,
    extracted: Seq<u8>,
    at: int,
    changed: u8,
)
    requires
        0 <= index,
        packed.len() == file.file_size,
        extracted.len() <= u64::MAX,
    ensures
        record_of(file, index, packed, extracted) is Ok <==> index <= u32::MAX,
        record_of(file, index, packed, extracted) matches Ok(e) ==> {
            &&& e.directory == file.directory
            &&& e.file_name == file.file_name
            &&& e.user_string == file.user_string
            &&& file.id is Some ==> Some(e.id) == file.id
            &&& file.id is None ==> e.id == index
            &&& e.extracted_size == extracted.len()
            &&& e.packed_size == packed.len()
            &&& e.packed_offset == file.absolute_offset
            &&& e.extracted_hash == hash_of(extracted)
            &&& e.packed_hash == hash_of(packed)
            &&& 0 <= at < extracted.len() && changed != extracted[at] ==> e.extracted_hash
                != hash_of(extracted.update(at, changed))
        },
{
    if 0 <= at < extracted.len() && changed != extracted[at] {
        law_hash_tells_a_changed_byte(0, extracted, at, changed);
    }
}

/// A file is unpacked to its extracted bytes, at its own path below the output
/// directory. No path leads out of that directory, and none is that of the
/// manifest.
pub proof fn law_files_are_unpacked_inside<E: FileDecryptor, D: FileDecompressor>(
    drives: bool,
    reader: ReaderView,
    file: CpkFileView,
    manifest_path: Seq<char>,
    k: int,
)
    ensures
        unpacked::<E, D>(drives, reader, file, manifest_path) is Ok <==> {
            &&& reader.packed(file) is Ok
            &&& output_components(drives, file.directory, file.file_name) matches Ok(names)
            &&& names != seq![".cri-cpk-manifest-v2"@]
        },
        unpacked::<E, D>(drives, reader, file, manifest_path) matches Ok(u) ==> {
            &&& reader.packed(file) == Ok::<Seq<u8>, CpkReaderError>(u.packed)
            &&& u.extracted == extracted::<E, D>(file, u.packed)
            &&& output_components(drives, file.directory, file.file_name) == Ok::<
                Seq<Seq<char>>,
                Seq<char>,
            >(u.components)
            &&& 0 <= k < u.components.len() ==> stays_inside(u.components[k])
        },
{
    if unpacked::<E, D>(drives, reader, file, manifest_path) is Ok {
        let u = unpacked::<E, D>(drives, reader, file, manifest_path)->Ok_0;
        if 0 <= k < u.components.len() {
            law_safe_components_stay_inside(drives, file.directory, file.file_name, k);
        }
    }
}

/// A file is shown by its directory and its name.
pub proof fn law_files_are_shown_by_their_path(file: CpkFileView)
    ensures
        file.directory.len() == 0 ==> shown_path(file) == file.file_name,
        file.directory.len() > 0 ==> shown_path(file) == file.directory + seq!['/']
            + file.file_name,
{
    reveal_strlit("/");
    assert("/"@ =~= seq!['/']);
}

} // verus!
