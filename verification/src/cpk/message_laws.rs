//! What the messages of errors tell.

use vstd::prelude::*;

use crate::cpk::error::WriterErrorView;
use crate::cpk::header::{ChunkError, CpkChunkKind};
use crate::cpk::reader::CpkReaderError;
use crate::schema::error::TableError;
use crate::utils::text::numeral;

verus! {

/// The piece stands in the text at `at`.
pub open spec fn piece_at(text: Seq<char>, at: int, piece: Seq<char>) -> bool {
    &&& 0 <= at
    &&& at + piece.len() <= text.len()
    &&& text.subrange(at, at + piece.len()) == piece
}

/// The piece stands somewhere in the text.
pub open spec fn tells(text: Seq<char>, piece: Seq<char>) -> bool {
    exists|at: int| piece_at(text, at, piece)
}

/// What a text is put together of stands in it.
pub proof fn lemma_tells(front: Seq<char>, piece: Seq<char>, back: Seq<char>)
    ensures
        tells(front + piece + back, piece),
        tells(front + piece, piece),
        tells(piece + back, piece),
        tells(piece, piece),
{
    let n = front.len() as int;
    let end = n + piece.len();
    assert((front + piece + back).subrange(n, end) =~= piece);
    assert(piece_at(front + piece + back, n, piece));
    assert((front + piece).subrange(n, end) =~= piece);
    assert(piece_at(front + piece, n, piece));
    assert((piece + back).subrange(0, piece.len() as int) =~= piece);
    assert(piece_at(piece + back, 0, piece));
    assert(piece.subrange(0, piece.len() as int) =~= piece);
    assert(piece_at(piece, 0, piece));
}

/// What stands in a text stands in a longer one.
proof fn lemma_tells_more(text: Seq<char>, back: Seq<char>, piece: Seq<char>)
    requires
        tells(text, piece),
    ensures
        tells(text + back, piece),
{
    let at = choose|at: int| piece_at(text, at, piece);
    assert((text + back).subrange(at, at + piece.len()) =~= text.subrange(at, at + piece.len()));
    assert(piece_at(text + back, at, piece));
}

/// The message of a writer's error tells its figures, paths and IDs: offsets and
/// the size of the header in hexadecimal, everything else in decimal.
pub proof fn law_writer_messages_tell_the_figures(e: WriterErrorView)
    ensures
        match e {
            WriterErrorView::InvalidAlignment(v) => tells(e.message_text(), numeral(v as nat, 10)),
            WriterErrorView::HeaderTooLarge(v) => tells(e.message_text(), numeral(v as nat, 16)),
            WriterErrorView::FileTooLarge(p, v) => tells(e.message_text(), p) && tells(
                e.message_text(),
                numeral(v as nat, 10),
            ),
            WriterErrorView::TooManyFiles(v) => tells(e.message_text(), numeral(v as nat, 10)),
            WriterErrorView::NonUtf8Path(p) => tells(e.message_text(), p),
            WriterErrorView::DuplicateItocId(v) => tells(e.message_text(), numeral(v as nat, 10)),
            WriterErrorView::ItocIdTooLarge(v) => tells(e.message_text(), numeral(v as nat, 10)),
            WriterErrorView::ItocContentOffsetTooLarge(v) => tells(
                e.message_text(),
                numeral(v as nat, 16),
            ),
            WriterErrorView::InvalidRawPayload(p) => tells(e.message_text(), p),
            WriterErrorView::PayloadSizeChanged { path, expected, wrote } => {
                &&& tells(e.message_text(), path)
                &&& tells(e.message_text(), numeral(expected as nat, 10))
                &&& tells(e.message_text(), numeral(wrote as nat, 10))
            },
            _ => true,
        },
{
    let text = e.message_text();
    let none = Seq::<char>::empty();
    match e {
        WriterErrorView::InvalidAlignment(v) => {
            lemma_tells(
                "alignment must be a power of two in 1..=65535, got "@,
                numeral(v as nat, 10),
                none,
            );
        },
        WriterErrorView::HeaderTooLarge(v) => {
            lemma_tells(
                "CPK header does not fit before 0x800 (0x"@,
                numeral(v as nat, 16),
                " bytes)"@,
            );
        },
        WriterErrorView::FileTooLarge(p, v) => {
            let front = p + " is too large for a CPK FileSize field ("@;
            lemma_tells(none, p, " is too large for a CPK FileSize field ("@);
            lemma_tells_more(front, numeral(v as nat, 10), p);
            lemma_tells_more(front + numeral(v as nat, 10), " bytes)"@, p);
            lemma_tells(front, numeral(v as nat, 10), " bytes)"@);
        },
        WriterErrorView::TooManyFiles(v) => {
            lemma_tells("file count does not fit in u32: "@, numeral(v as nat, 10), none);
        },
        WriterErrorView::NonUtf8Path(p) => {
            lemma_tells("path is not valid UTF-8: "@, p, none);
        },
        WriterErrorView::DuplicateItocId(v) => {
            lemma_tells("duplicate ITOC ID: "@, numeral(v as nat, 10), none);
        },
        WriterErrorView::ItocIdTooLarge(v) => {
            lemma_tells(
                "ITOC IDs are 16-bit in the target engine, got "@,
                numeral(v as nat, 10),
                none,
            );
        },
        WriterErrorView::ItocContentOffsetTooLarge(v) => {
            lemma_tells(
                "ITOC ContentOffset must fit the target engine's 32-bit offset state, got 0x"@,
                numeral(v as nat, 16),
                none,
            );
        },
        WriterErrorView::InvalidRawPayload(p) => {
            lemma_tells("raw payload source is truncated or unreadable: "@, p, none);
        },
        WriterErrorView::PayloadSizeChanged { path, expected, wrote } => {
            let a = numeral(expected as nat, 10);
            let b = numeral(wrote as nat, 10);
            let front = path + " changed packed size while packing (expected "@;
            lemma_tells(none, path, " changed packed size while packing (expected "@);
            lemma_tells_more(front, a, path);
            lemma_tells_more(front + a, ", wrote "@, path);
            lemma_tells_more(front + a + ", wrote "@, b, path);
            lemma_tells_more(front + a + ", wrote "@ + b, ")"@, path);
            lemma_tells(front, a, ", wrote "@);
            lemma_tells_more(front + a + ", wrote "@, b, a);
            lemma_tells_more(front + a + ", wrote "@ + b, ")"@, a);
            lemma_tells(front + a + ", wrote "@, b, ")"@);
        },
        _ => {},
    }
}

/// The message for a chunk that is refused tells its sizes in hexadecimal, but for a
/// size that is too large for the platform, and which chunk it is.
pub proof fn law_chunk_messages_tell_the_sizes(e: ChunkError)
    ensures
        match e {
            ChunkError::UnexpectedEof => true,
            ChunkError::TableTooLarge { size } => tells(
                e.message_text(),
                numeral(size as nat, 10),
            ),
            ChunkError::InvalidTableSize { kind, size } => tells(
                e.message_text(),
                numeral(size as nat, 16),
            ) && tells(e.message_text(), kind.label_text()),
            ChunkError::HeaderAreaExceeded { size } => tells(
                e.message_text(),
                numeral(size as nat, 16),
            ),
            ChunkError::TruncatedTable { kind, size, remaining } => {
                &&& tells(e.message_text(), kind.label_text())
                &&& tells(e.message_text(), numeral(size as nat, 16))
                &&& tells(e.message_text(), numeral(remaining as nat, 16))
            },
            ChunkError::MissingSignature { kind } => tells(e.message_text(), kind.label_text()),
        },
{
    let none = Seq::<char>::empty();
    match e {
        ChunkError::UnexpectedEof => {},
        ChunkError::TableTooLarge { size } => {
            lemma_tells(
                "CPK table is too large for this platform: "@,
                numeral(size as nat, 10),
                " bytes"@,
            );
        },
        ChunkError::InvalidTableSize { kind, size } => {
            let front = "invalid "@ + kind.label_text() + " table size: 0x"@;
            lemma_tells("invalid "@, kind.label_text(), " table size: 0x"@);
            lemma_tells_more(front, numeral(size as nat, 16), kind.label_text());
            lemma_tells(front, numeral(size as nat, 16), none);
        },
        ChunkError::HeaderAreaExceeded { size } => {
            lemma_tells(
                "CPK header exceeds the engine's 0x800-byte header area: 0x"@,
                numeral(size as nat, 16),
                none,
            );
        },
        ChunkError::TruncatedTable { kind, size, remaining } => {
            let a = numeral(size as nat, 16);
            let b = numeral(remaining as nat, 16);
            let l = kind.label_text();
            let front = "truncated "@ + l + " table: declares 0x"@;
            lemma_tells("truncated "@, l, " table: declares 0x"@);
            lemma_tells_more(front, a, l);
            lemma_tells_more(front + a, " bytes, only 0x"@, l);
            lemma_tells_more(front + a + " bytes, only 0x"@, b, l);
            lemma_tells_more(front + a + " bytes, only 0x"@ + b, " remain"@, l);
            lemma_tells(front, a, " bytes, only 0x"@);
            lemma_tells_more(front + a + " bytes, only 0x"@, b, a);
            lemma_tells_more(front + a + " bytes, only 0x"@ + b, " remain"@, a);
            lemma_tells(front + a + " bytes, only 0x"@, b, " remain"@);
        },
        ChunkError::MissingSignature { kind } => {
            lemma_tells(
                none,
                kind.label_text(),
                " chunk does not contain a valid @UTF table"@,
            );
        },
    }
}

/// The message of a reader's error tells the column, the offset or the size; where a
/// chunk or a table is at fault, it is the message for that.
pub proof fn law_reader_messages_tell_the_figures(e: CpkReaderError)
    ensures
        match e {
            CpkReaderError::InvalidTocColumn(name) => tells(e.message_text(), name@),
            CpkReaderError::ItocContentOffsetTooLarge(offset) => tells(
                e.message_text(),
                numeral(offset as nat, 16),
            ),
            CpkReaderError::FileTooLarge(size) => tells(e.message_text(), numeral(size as nat, 10)),
            CpkReaderError::Chunk(c) => e.message_text() == c.message_text(),
            CpkReaderError::Table(t) => {
                &&& e.message_text() == t.message_text()
                &&& t matches TableError::Truncated { declared, available } ==> tells(
                    e.message_text(),
                    numeral(declared as nat, 16),
                ) && tells(e.message_text(), numeral(available as nat, 16))
            },
            _ => true,
        },
{
    let none = Seq::<char>::empty();
    match e {
        CpkReaderError::InvalidTocColumn(name) => {
            lemma_tells("TOC is missing required column "@, name@, none);
        },
        CpkReaderError::ItocContentOffsetTooLarge(offset) => {
            lemma_tells(
                "ITOC ContentOffset exceeds the target engine's 32-bit base: 0x"@,
                numeral(offset as nat, 16),
                none,
            );
        },
        CpkReaderError::FileTooLarge(size) => {
            lemma_tells("file size does not fit the CPK format: "@, numeral(size as nat, 10), none);
        },
        CpkReaderError::Table(TableError::Truncated { declared, available }) => {
            let a = numeral(declared as nat, 16);
            let b = numeral(available as nat, 16);
            let front = "truncated @UTF table: header declares 0x"@;
            lemma_tells(front, a, ", buffer has 0x"@);
            lemma_tells_more(front + a + ", buffer has 0x"@, b, a);
            lemma_tells(front + a + ", buffer has 0x"@, b, none);
        },
        _ => {},
    }
}

/// Chunks of different known kinds are told apart in messages.
pub proof fn law_kinds_have_their_own_labels(a: CpkChunkKind, b: CpkChunkKind)
    requires
        a !is Unknown,
        b !is Unknown,
        a.label_text() == b.label_text(),
    ensures
        a == b,
{
    reveal_strlit("Cpk");
    reveal_strlit("Toc");
    reveal_strlit("Itoc");
    reveal_strlit("Etoc");
    reveal_strlit("Gtoc");
    assert("Cpk"@[0] == 'C' && "Toc"@[0] == 'T' && "Itoc"@[0] == 'I' && "Etoc"@[0] == 'E'
        && "Gtoc"@[0] == 'G');
    assert(a.label_text()[0] == b.label_text()[0]);
}

} // verus!
