//! One file of an archive, as its index describes it.

use vstd::prelude::*;

verus! {

/// What the index of an archive says of a file.
#[derive(Debug, Clone, PartialEq, Eq)]
pub struct CpkFile {
    directory: String,
    file_name: String,
    file_offset: u64,
    absolute_offset: u64,
    file_size: u32,
    extract_size: u32,
    id: Option<u32>,
    user_string: String,
    file_crc: Option<u32>,
}

/// The fields of a [`CpkFile`].
#[verifier::ext_equal]
pub struct CpkFileView {
    /// Directory of the file; empty for the archive's root.
    pub directory: Seq<char>,
    /// Name of the file. Archives indexed by ID alone store no names; their
    /// files are named after the ID.
    pub file_name: Seq<char>,
    /// Offset as the index stores it.
    pub file_offset: u64,
    /// Offset from the beginning of the archive.
    pub absolute_offset: u64,
    /// Packed size in the archive.
    pub file_size: u32,
    /// Size after extraction.
    pub extract_size: u32,
    pub id: Option<u32>,
    /// Developer-defined metadata.
    pub user_string: Seq<char>,
    pub file_crc: Option<u32>,
}

/// The extracted size of a file: an index that stores zero means the packed size.
pub open spec fn effective_extract_size(file_size: u32, extract_size: u32) -> u32 {
    if extract_size == 0 {
        file_size
    } else {
        extract_size
    }
}

impl View for CpkFile {
    type V = CpkFileView;

    closed spec fn view(&self) -> CpkFileView {
        CpkFileView {
            directory: self.directory@,
            file_name: self.file_name@,
            file_offset: self.file_offset,
            absolute_offset: self.absolute_offset,
            file_size: self.file_size,
            extract_size: self.extract_size,
            id: self.id,
            user_string: self.user_string@,
            file_crc: self.file_crc,
        }
    }
}

/// The fields of a list of files.
pub open spec fn files_view(files: Seq<CpkFile>) -> Seq<CpkFileView> {
    Seq::new(files.len(), |i: int| files[i]@)
}

impl CpkFile {
    pub fn directory(&self) -> (v: &str)
        ensures
            v@ == self@.directory,
    {
        self.directory.as_str()
    }

    pub fn file_name(&self) -> (v: &str)
        ensures
            v@ == self@.file_name,
    {
        self.file_name.as_str()
    }

    pub fn file_offset(&self) -> (v: u64)
        ensures
            v == self@.file_offset,
    {
        self.file_offset
    }

    pub fn absolute_offset(&self) -> (v: u64)
        ensures
            v == self@.absolute_offset,
    {
        self.absolute_offset
    }

    pub fn file_size(&self) -> (v: u32)
        ensures
            v == self@.file_size,
    {
        self.file_size
    }

    pub fn extract_size(&self) -> (v: u32)
        ensures
            v == self@.extract_size,
    {
        self.extract_size
    }

    pub fn id(&self) -> (v: Option<u32>)
        ensures
            v == self@.id,
    {
        self.id
    }

    pub fn user_string(&self) -> (v: &str)
        ensures
            v@ == self@.user_string,
    {
        self.user_string.as_str()
    }

    pub fn file_crc(&self) -> (v: Option<u32>)
        ensures
            v == self@.file_crc,
    {
        self.file_crc
    }

    pub(crate) fn new(
        directory: String,
        file_name: String,
        file_offset: u64,
        absolute_offset: u64,
        file_size: u32,
        extract_size: u32,
        id: Option<u32>,
        user_string: String,
        file_crc: Option<u32>,
    ) -> (file: Self)
        ensures
            file@ == (CpkFileView {
                directory: directory@,
                file_name: file_name@,
                file_offset,
                absolute_offset,
                file_size,
                extract_size: effective_extract_size(file_size, extract_size),
                id,
                user_string: user_string@,
                file_crc,
            }),
    {
        CpkFile {
            directory,
            file_name,
            file_offset,
            absolute_offset,
            file_size,
            extract_size: if extract_size == 0 {
                file_size
            } else {
                extract_size
            },
            id,
            user_string,
            file_crc,
        }
    }
}

} // verus!
