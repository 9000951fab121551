//! What does not change what is read of an archive.

use vstd::prelude::*;

use crate::cpk::compress::FileDecompressor;
use crate::cpk::encrypt::data::FileDecryptor;
use crate::cpk::file::CpkFileView;
use crate::cpk::header::{chunk_at, CPK_CHUNK_HEADER_SIZE};
use crate::cpk::reader::{extracted, CpkReaderError, ReaderView};
use crate::utils::bytes::{le_u32, le_u64};

verus! {

/// `whole` reads the archive that `archive` reads, with `prefix` in front of it.
/// Either may have read the header before.
pub open spec fn reads_behind(prefix: Seq<u8>, archive: ReaderView, whole: ReaderView) -> bool {
    &&& whole.stream == prefix + archive.stream
    &&& whole.start == prefix.len() + archive.start
}

/// The reader's values are those of a reader that holds its stream in memory.
pub open spec fn in_memory(reader: ReaderView) -> bool {
    0 <= reader.start && reader.stream.len() <= u64::MAX
}

/// A chunk is read alike wherever it stands.
proof fn lemma_chunk_behind(prefix: Seq<u8>, stream: Seq<u8>, at: int)
    requires
        0 <= at,
    ensures
        chunk_at(prefix + stream, prefix.len() + at) == chunk_at(stream, at),
{
    let whole = prefix + stream;
    let p = prefix.len() as int;
    if at + CPK_CHUNK_HEADER_SIZE <= stream.len() {
        assert(whole.subrange(p + at, p + at + 4) =~= stream.subrange(at, at + 4));
        assert(le_u64(whole, p + at + 8) == le_u64(stream, at + 8)) by {
            reveal(le_u64);
            reveal(le_u32);
        }
        let size = le_u64(stream, at + 8);
        let start = at + CPK_CHUNK_HEADER_SIZE;
        if start + size <= stream.len() {
            assert(whole.subrange(p + start, p + start + size) =~= stream.subrange(
                start,
                start + size,
            ));
        }
    }
}

/// Bytes in front of an archive change nothing of its header or its listing,
/// and neither do earlier calls. The one listing that they can spoil is of an
/// archive that could not be listed anyway: the place of its index leaves 64 bits.
pub proof fn law_prefix_does_not_change_the_listing(
    prefix: Seq<u8>,
    archive: ReaderView,
    whole: ReaderView,
)
    requires
        in_memory(archive),
        in_memory(whole),
        reads_behind(prefix, archive, whole),
    ensures
        whole.header() == archive.header(),
        archive.files() is Ok ==> whole.files() == archive.files(),
        archive.files() is Err ==> {
            ||| whole.files() == archive.files()
            ||| whole.files() == Err::<Seq<CpkFileView>, CpkReaderError>(
                CpkReaderError::MissingFileOffset,
            )
        },
{
    lemma_chunk_behind(prefix, archive.stream, archive.start);
    if archive.header() is Ok {
        let m = archive.header()->Ok_0;
        lemma_chunk_behind(prefix, archive.stream, archive.start + m.toc_offset);
        lemma_chunk_behind(prefix, archive.stream, archive.start + m.itoc_offset);
    }
}

/// Bytes in front of an archive change nothing of the packed bytes of a file and
/// of what it is extracted to, as long as its place does not leave 64 bits. Only
/// an empty file can have such a place and be read without the bytes in front.
pub proof fn law_prefix_does_not_change_the_files<E: FileDecryptor, D: FileDecompressor>(
    prefix: Seq<u8>,
    archive: ReaderView,
    whole: ReaderView,
    file: CpkFileView,
)
    requires
        in_memory(archive),
        in_memory(whole),
        reads_behind(prefix, archive, whole),
        archive.metadata is Some,
        whole.metadata is Some,
    ensures
        whole.start + file.absolute_offset <= u64::MAX ==> whole.packed(file) == archive.packed(file),
        file.file_size > 0 && archive.packed(file) is Ok ==> whole.packed(file) == archive.packed(
            file,
        ),
        whole.packed(file) is Ok ==> {
            &&& archive.packed(file) is Ok
            &&& extracted::<E, D>(file, whole.packed(file)->Ok_0) == extracted::<E, D>(
                file,
                archive.packed(file)->Ok_0,
            )
        },
{
    let p = prefix.len() as int;
    let at = archive.start + file.absolute_offset;
    let end = at + file.file_size;
    if end <= archive.stream.len() {
        assert(whole.stream.subrange(p + at, p + end) =~= archive.stream.subrange(at, end));
    }
}

} // verus!
