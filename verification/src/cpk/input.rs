//! What an archive is made from.

use vstd::prelude::*;

verus! {

/// Which indexes an archive has.
#[derive(Debug, Clone, Copy, PartialEq, Eq, Structural)]
pub enum CpkIndexMode {
    Toc,
    Itoc,
    TocAndItoc,
}

impl CpkIndexMode {
    /// The archive has an index by name.
    pub open spec fn by_name(self) -> bool {
        self is Toc || self is TocAndItoc
    }

    /// The archive has an index by ID.
    pub open spec fn by_id(self) -> bool {
        self is Itoc || self is TocAndItoc
    }

    /// The number of the mode in the archive header.
    pub open spec fn number(self) -> u32 {
        match self {
            CpkIndexMode::Itoc => 0,
            CpkIndexMode::Toc => 1,
            CpkIndexMode::TocAndItoc => 2,
        }
    }

    pub fn has_toc(self) -> (yes: bool)
        ensures
            yes == self.by_name(),
    {
        matches!(self, CpkIndexMode::Toc | CpkIndexMode::TocAndItoc)
    }

    pub fn has_itoc(self) -> (yes: bool)
        ensures
            yes == self.by_id(),
    {
        matches!(self, CpkIndexMode::Itoc | CpkIndexMode::TocAndItoc)
    }

    pub fn cpk_mode(self) -> (number: u32)
        ensures
            number == self.number(),
    {
        match self {
            CpkIndexMode::Itoc => 0,
            CpkIndexMode::Toc => 1,
            CpkIndexMode::TocAndItoc => 2,
        }
    }
}

/// How an archive is written.
#[derive(Debug, Clone, Copy)]
pub struct CpkWriterOptions {
    pub alignment: u16,
    /// Apply the file transform to rebuilt entries that are marked for it.
    /// Reused packed bytes are taken as they are.
    pub p5r_encryption: bool,
}

impl Default for CpkWriterOptions {
    fn default() -> (options: Self)
        ensures
            options == (CpkWriterOptions { alignment: 0x800, p5r_encryption: false }),
    {
        CpkWriterOptions { alignment: 0x800, p5r_encryption: false }
    }
}

/// The indexes and the header fields of an archive.
#[derive(Debug, Clone)]
pub struct CpkWriterProfile {
    pub index_mode: CpkIndexMode,
    /// A direct ITOC stores its rows in the ITOC table itself; a standard one
    /// in two nested tables.
    pub direct_itoc: bool,
    pub version: u16,
    pub revision: u16,
    pub update_date_time: u64,
    pub tvers: String,
    pub comment: String,
}

/// [`CpkWriterProfile`] with its texts as character sequences.
pub struct ProfileView {
    pub index_mode: CpkIndexMode,
    pub direct_itoc: bool,
    pub version: u16,
    pub revision: u16,
    pub update_date_time: u64,
    pub tvers: Seq<char>,
    pub comment: Seq<char>,
}

impl View for CpkWriterProfile {
    type V = ProfileView;

    open spec fn view(&self) -> ProfileView {
        ProfileView {
            index_mode: self.index_mode,
            direct_itoc: self.direct_itoc,
            version: self.version,
            revision: self.revision,
            update_date_time: self.update_date_time,
            tvers: self.tvers@,
            comment: self.comment@,
        }
    }
}

/// The profile of an archive that was not unpacked from another one.
pub open spec fn default_profile() -> ProfileView {
    ProfileView {
        index_mode: CpkIndexMode::Toc,
        direct_itoc: false,
        version: 7,
        revision: 0,
        update_date_time: 0,
        tvers: "7.0.0"@,
        comment: "Created by cri-cpk-cli"@,
    }
}

impl Default for CpkWriterProfile {
    fn default() -> (profile: Self)
        ensures
            profile@ == default_profile(),
    {
        CpkWriterProfile {
            index_mode: CpkIndexMode::Toc,
            direct_itoc: false,
            version: 7,
            revision: 0,
            update_date_time: 0,
            tvers: "7.0.0".to_owned(),
            comment: "Created by cri-cpk-cli".to_owned(),
        }
    }
}

/// Packed bytes of an existing archive.
#[derive(Debug, Clone)]
pub struct CpkRawPayload {
    pub archive_path: String,
    pub absolute_offset: u64,
    pub size: u32,
}

/// [`CpkRawPayload`] with its path as a character sequence.
pub struct RawView {
    pub archive_path: Seq<char>,
    pub absolute_offset: u64,
    pub size: u32,
}

impl View for CpkRawPayload {
    type V = RawView;

    open spec fn view(&self) -> RawView {
        RawView {
            archive_path: self.archive_path@,
            absolute_offset: self.absolute_offset,
            size: self.size,
        }
    }
}

/// A file to pack.
#[derive(Debug, Clone)]
pub struct CpkInputFile {
    pub directory: String,
    pub file_name: String,
    /// Extracted file that a rebuilt entry is made from.
    pub source_path: String,
    /// Packed size: the length of the extracted file, or that of the reused
    /// packed bytes.
    pub size: u32,
    pub extract_size: u32,
    pub id: u32,
    pub user_string: String,
    /// Packed bytes to reuse. They only change where the bytes of this entry
    /// come from; headers and indexes are written anew.
    pub raw_payload: Option<CpkRawPayload>,
}

/// [`CpkInputFile`] with its texts as character sequences.
pub struct InputView {
    pub directory: Seq<char>,
    pub file_name: Seq<char>,
    pub source_path: Seq<char>,
    pub size: u32,
    pub extract_size: u32,
    pub id: u32,
    pub user_string: Seq<char>,
    pub raw_payload: Option<RawView>,
}

impl View for CpkInputFile {
    type V = InputView;

    open spec fn view(&self) -> InputView {
        InputView {
            directory: self.directory@,
            file_name: self.file_name@,
            source_path: self.source_path@,
            size: self.size,
            extract_size: self.extract_size,
            id: self.id,
            user_string: self.user_string@,
            raw_payload: match self.raw_payload {
                Some(raw) => Some(raw@),
                None => None,
            },
        }
    }
}

/// A list of files to pack.
pub open spec fn inputs_view(files: Seq<CpkInputFile>) -> Seq<InputView> {
    Seq::new(files.len(), |i: int| files[i]@)
}

/// Where the parts of a written archive stand.
#[derive(Debug, Clone, Copy, PartialEq, Eq, Structural)]
pub struct CpkWriteReport {
    pub files: u32,
    pub toc_offset: u64,
    pub itoc_offset: u64,
    pub content_offset: u64,
    pub archive_size: u64,
}

} // verus!
