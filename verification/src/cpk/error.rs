//! Why an archive cannot be written.

use vstd::prelude::*;
use vstd::string::*;

use crate::utils::text::{decimal, hexadecimal, numeral};

verus! {

/// Why an archive cannot be written.
#[derive(Debug)]
pub enum CpkWriterError {
    /// The alignment is not a power of two.
    InvalidAlignment(u32),
    /// There is nothing to pack.
    EmptyInput,
    /// The header chunk, of this size, does not fit in the area reserved for it.
    HeaderTooLarge(usize),
    /// The file at this path has a size that the index cannot hold.
    FileTooLarge(String, u64),
    /// The file count does not fit in the index.
    TooManyFiles(usize),
    /// A path is not valid UTF-8.
    NonUtf8Path(String),
    /// A file is to be encrypted, and no transform is at hand.
    UnsupportedP5rEncryption,
    /// A size or offset does not fit in its field.
    ArithmeticOverflow,
    /// Two files have the same ID.
    DuplicateItocId(u32),
    /// An ID does not fit in 16 bits.
    ItocIdTooLarge(u32),
    /// The content begins behind the range of 32-bit offsets.
    ItocContentOffsetTooLarge(u64),
    /// The packed bytes to reuse from the archive at this path are not there.
    InvalidRawPayload(String),
    /// The bytes for the file at this path have another size than its entry.
    PayloadSizeChanged { path: String, expected: u32, wrote: u64 },
}

/// [`CpkWriterError`] with its texts as character sequences.
pub enum WriterErrorView {
    InvalidAlignment(u32),
    EmptyInput,
    HeaderTooLarge(usize),
    FileTooLarge(Seq<char>, u64),
    TooManyFiles(usize),
    NonUtf8Path(Seq<char>),
    UnsupportedP5rEncryption,
    ArithmeticOverflow,
    DuplicateItocId(u32),
    ItocIdTooLarge(u32),
    ItocContentOffsetTooLarge(u64),
    InvalidRawPayload(Seq<char>),
    PayloadSizeChanged { path: Seq<char>, expected: u32, wrote: u64 },
}

impl View for CpkWriterError {
    type V = WriterErrorView;

    open spec fn view(&self) -> WriterErrorView {
        match self {
            CpkWriterError::InvalidAlignment(v) => WriterErrorView::InvalidAlignment(*v),
            CpkWriterError::EmptyInput => WriterErrorView::EmptyInput,
            CpkWriterError::HeaderTooLarge(v) => WriterErrorView::HeaderTooLarge(*v),
            CpkWriterError::FileTooLarge(p, v) => WriterErrorView::FileTooLarge(p@, *v),
            CpkWriterError::TooManyFiles(v) => WriterErrorView::TooManyFiles(*v),
            CpkWriterError::NonUtf8Path(p) => WriterErrorView::NonUtf8Path(p@),
            CpkWriterError::UnsupportedP5rEncryption => WriterErrorView::UnsupportedP5rEncryption,
            CpkWriterError::ArithmeticOverflow => WriterErrorView::ArithmeticOverflow,
            CpkWriterError::DuplicateItocId(v) => WriterErrorView::DuplicateItocId(*v),
            CpkWriterError::ItocIdTooLarge(v) => WriterErrorView::ItocIdTooLarge(*v),
            CpkWriterError::ItocContentOffsetTooLarge(v) =>
                WriterErrorView::ItocContentOffsetTooLarge(*v),
            CpkWriterError::InvalidRawPayload(p) => WriterErrorView::InvalidRawPayload(p@),
            CpkWriterError::PayloadSizeChanged { path, expected, wrote } =>
                WriterErrorView::PayloadSizeChanged {
                path: path@,
                expected: *expected,
                wrote: *wrote,
            },
        }
    }
}

impl WriterErrorView {
    /// The message of the error.
    pub open spec fn message_text(self) -> Seq<char> {
        match self {
            WriterErrorView::InvalidAlignment(v) =>
                "alignment must be a power of two in 1..=65535, got "@ + numeral(v as nat, 10),
            WriterErrorView::EmptyInput => "input directory contains no files"@,
            WriterErrorView::HeaderTooLarge(v) => "CPK header does not fit before 0x800 (0x"@
                + numeral(v as nat, 16) + " bytes)"@,
            WriterErrorView::FileTooLarge(p, v) => p
                + " is too large for a CPK FileSize field ("@ + numeral(v as nat, 10) + " bytes)"@,
            WriterErrorView::TooManyFiles(v) => "file count does not fit in u32: "@ + numeral(
                v as nat,
                10,
            ),
            WriterErrorView::NonUtf8Path(p) => "path is not valid UTF-8: "@ + p,
            WriterErrorView::UnsupportedP5rEncryption =>
                "P5R encryption requires feature cpk_encryption_p5r"@,
            WriterErrorView::ArithmeticOverflow => "CPK size calculation overflowed"@,
            WriterErrorView::DuplicateItocId(v) => "duplicate ITOC ID: "@ + numeral(v as nat, 10),
            WriterErrorView::ItocIdTooLarge(v) =>
                "ITOC IDs are 16-bit in the target engine, got "@ + numeral(v as nat, 10),
            WriterErrorView::ItocContentOffsetTooLarge(v) =>
                "ITOC ContentOffset must fit the target engine's 32-bit offset state, got 0x"@
                + numeral(v as nat, 16),
            WriterErrorView::InvalidRawPayload(p) =>
                "raw payload source is truncated or unreadable: "@ + p,
            WriterErrorView::PayloadSizeChanged { path, expected, wrote } => path
                + " changed packed size while packing (expected "@ + numeral(expected as nat, 10)
                + ", wrote "@ + numeral(wrote as nat, 10) + ")"@,
        }
    }
}

impl CpkWriterError {
    /// The message of the error.
    pub fn message(&self) -> (text: String)
        ensures
            text@ == self@.message_text(),
    {
        match self {
            CpkWriterError::InvalidAlignment(v) => {
                let mut text = "alignment must be a power of two in 1..=65535, got ".to_owned();
                text.append(decimal(*v as u64).as_str());
                text
            },
            CpkWriterError::EmptyInput => "input directory contains no files".to_owned(),
            CpkWriterError::HeaderTooLarge(v) => {
                let mut text = "CPK header does not fit before 0x800 (0x".to_owned();
                text.append(hexadecimal(*v as u64).as_str());
                text.append(" bytes)");
                text
            },
            CpkWriterError::FileTooLarge(p, v) => {
                let mut text = p.clone();
                text.append(" is too large for a CPK FileSize field (");
                text.append(decimal(*v).as_str());
                text.append(" bytes)");
                text
            },
            CpkWriterError::TooManyFiles(v) => {
                let mut text = "file count does not fit in u32: ".to_owned();
                text.append(decimal(*v as u64).as_str());
                text
            },
            CpkWriterError::NonUtf8Path(p) => {
                let mut text = "path is not valid UTF-8: ".to_owned();
                text.append(p.as_str());
                text
            },
            CpkWriterError::UnsupportedP5rEncryption => {
                "P5R encryption requires feature cpk_encryption_p5r".to_owned()
            },
            CpkWriterError::ArithmeticOverflow => "CPK size calculation overflowed".to_owned(),
            CpkWriterError::DuplicateItocId(v) => {
                let mut text = "duplicate ITOC ID: ".to_owned();
                text.append(decimal(*v as u64).as_str());
                text
            },
            CpkWriterError::ItocIdTooLarge(v) => {
                let mut text = "ITOC IDs are 16-bit in the target engine, got ".to_owned();
                text.append(decimal(*v as u64).as_str());
                text
            },
            CpkWriterError::ItocContentOffsetTooLarge(v) => {
                let mut text =
                    "ITOC ContentOffset must fit the target engine's 32-bit offset state, got 0x".to_owned();
                text.append(hexadecimal(*v).as_str());
                text
            },
            CpkWriterError::InvalidRawPayload(p) => {
                let mut text = "raw payload source is truncated or unreadable: ".to_owned();
                text.append(p.as_str());
                text
            },
            CpkWriterError::PayloadSizeChanged { path, expected, wrote } => {
                let mut text = path.clone();
                text.append(" changed packed size while packing (expected ");
                text.append(decimal(*expected as u64).as_str());
                text.append(", wrote ");
                text.append(decimal(*wrote).as_str());
                text.append(")");
                text
            },
        }
    }
}

} // verus!
