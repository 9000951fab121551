//! String pools of `@UTF` tables.
//!
//! A pool is a run of zero-terminated strings; a string is known by the offset
//! of its first byte.

use std::collections::HashMap;

use vstd::prelude::*;
use vstd::slice::slice_subrange;
use vstd::utf8::{decode_utf8, valid_utf8};

use crate::schema::error::TableError;
use crate::schema::header::{StringEncoding, TableHeader};
use crate::utils::text::{
    decode_buffer, decode_shift_jis, decoder_has_room, shift_jis_text, utf8_text,
};

verus! {

broadcast use vstd::std_specs::hash::group_hash_axioms;

/// Texts found by their offset in a string pool.
pub trait StringPool {
    /// The texts of the pool, by offset.
    spec fn strings(&self) -> Map<int, Seq<char>>;

    /// The text at `offset`, if a string begins there.
    fn get_string(&self, offset: u32) -> (text: Option<&str>)
        ensures
            match text {
                Some(t) => self.strings().contains_key(offset as int) && t@
                    == self.strings()[offset as int],
                None => !self.strings().contains_key(offset as int),
            },
    ;
}

/// A string begins at `at`: at the front of the pool, or behind a zero.
pub open spec fn string_begins(s: Seq<u8>, at: int) -> bool {
    0 <= at < s.len() && (at == 0 || s[at - 1] == 0)
}

/// The first zero at or behind `at`; the length of `s` if there is none.
pub open spec fn zero_from(s: Seq<u8>, at: int) -> int
    decreases s.len() - at,
{
    if at >= s.len() {
        s.len() as int
    } else if s[at] == 0 {
        at
    } else {
        zero_from(s, at + 1)
    }
}

/// The bytes of the string that begins at `at`, without the terminating zero.
pub open spec fn string_bytes(s: Seq<u8>, at: int) -> Seq<u8> {
    s.subrange(at, zero_from(s, at))
}

/// Whether the bytes of a string can be decoded. Shift-JIS can, whatever it holds,
/// unless the decoder wants a larger buffer for it than there can be.
pub open spec fn decodable(bytes: Seq<u8>, encoding: StringEncoding) -> bool {
    match encoding {
        StringEncoding::ShiftJIS => decode_buffer(bytes) <= isize::MAX,
        StringEncoding::UTF8 => valid_utf8(bytes),
    }
}

/// The text that the bytes of a string stand for.
pub open spec fn text_of(bytes: Seq<u8>, encoding: StringEncoding) -> Seq<char> {
    match encoding {
        StringEncoding::ShiftJIS => shift_jis_text(bytes),
        StringEncoding::UTF8 => decode_utf8(bytes),
    }
}

/// The error for bytes that cannot be decoded.
pub open spec fn decode_error(encoding: StringEncoding) -> TableError {
    match encoding {
        StringEncoding::ShiftJIS => TableError::StringTooLong,
        StringEncoding::UTF8 => TableError::InvalidUtf8,
    }
}

/// A terminated string of the pool cannot be decoded.
pub open spec fn undecodable_at(s: Seq<u8>, at: int, encoding: StringEncoding) -> bool {
    string_begins(s, at) && zero_from(s, at) < s.len() && !decodable(string_bytes(s, at), encoding)
}

/// The texts of the pool `s`, by offset. A string that cannot be decoded counts
/// before a missing terminator, which only the last string can lack.
pub open spec fn pool_strings(s: Seq<u8>, encoding: StringEncoding) -> Result<
    Map<int, Seq<char>>,
    TableError,
> {
    if exists|at: int| undecodable_at(s, at, encoding) {
        Err(decode_error(encoding))
    } else if s.len() > 0 && s.last() != 0 {
        Err(TableError::UnterminatedString)
    } else {
        Ok(
            Map::new(
                |at: int| string_begins(s, at),
                |at: int| text_of(string_bytes(s, at), encoding),
            ),
        )
    }
}

/// What the pool of a table with this header is read as. `stream` begins with
/// the table.
pub open spec fn stream_strings(stream: Seq<u8>, header: TableHeader) -> Result<
    Map<int, Seq<char>>,
    TableError,
> {
    if header.data_start() < header.strings_start() {
        Err(TableError::InvalidPoolOffsets)
    } else if header.data_start() == header.strings_start() {
        pool_strings(Seq::empty(), header.string_encoding)
    } else if header.data_start() > stream.len() {
        Err(TableError::UnexpectedEof)
    } else {
        pool_strings(
            stream.subrange(header.strings_start(), header.data_start()),
            header.string_encoding,
        )
    }
}

/// The byte found by [`zero_from`], and the bytes before it.
pub proof fn lemma_zero_from(s: Seq<u8>, at: int)
    requires
        0 <= at <= s.len(),
    ensures
        at <= zero_from(s, at) <= s.len(),
        zero_from(s, at) < s.len() ==> s[zero_from(s, at)] == 0,
        forall|i: int| at <= i < zero_from(s, at) ==> #[trigger] s[i] != 0,
    decreases s.len() - at,
{
    if at < s.len() && s[at] != 0 {
        lemma_zero_from(s, at + 1);
    }
}

/// The zero is the one found by [`zero_from`] if no zero stands before it.
pub proof fn lemma_zero_from_is(s: Seq<u8>, at: int, end: int)
    requires
        0 <= at <= end <= s.len(),
        end < s.len() ==> s[end] == 0,
        forall|i: int| at <= i < end ==> #[trigger] s[i] != 0,
    ensures
        zero_from(s, at) == end,
    decreases end - at,
{
    if at < end {
        lemma_zero_from_is(s, at + 1, end);
    }
}

fn find_zero(s: &[u8], at: usize) -> (end: usize)
    requires
        at <= s@.len(),
    ensures
        end == zero_from(s@, at as int),
        at <= end <= s@.len(),
{
    let mut end: usize = at;
    while end < s.len() && s[end] != 0
        invariant
            at <= end <= s@.len(),
            forall|i: int| at <= i < end ==> #[trigger] s@[i] != 0,
        decreases s@.len() - end,
    {
        end = end + 1;
    }
    proof {
        lemma_zero_from_is(s@, at as int, end as int);
    }
    end
}

fn decode_string(bytes: &[u8], encoding: StringEncoding) -> (r: Result<String, TableError>)
    ensures
        match r {
            Ok(text) => decodable(bytes@, encoding) && text@ == text_of(bytes@, encoding),
            Err(e) => !decodable(bytes@, encoding) && e == decode_error(encoding),
        },
{
    match encoding {
        StringEncoding::ShiftJIS => {
            if !decoder_has_room(bytes) {
                return Err(TableError::StringTooLong);
            }
            Ok(decode_shift_jis(bytes))
        },
        StringEncoding::UTF8 => match utf8_text(bytes) {
            Some(text) => Ok(text),
            None => Err(TableError::InvalidUtf8),
        },
    }
}

/// A string pool held as owned texts.
#[derive(Debug)]
pub struct StringPoolFast(HashMap<usize, String>);

impl StringPoolFast {
    /// A pool without strings.
    pub fn empty() -> (pool: Self)
        ensures
            pool.strings() == Map::<int, Seq<char>>::empty(),
    {
        let pool = StringPoolFast(HashMap::new());
        assert(pool.strings() =~= Map::<int, Seq<char>>::empty());
        pool
    }

    /// Records that the string at `offset` is `text`.
    pub fn insert(&mut self, offset: usize, text: String)
        ensures
            final(self).strings() == old(self).strings().insert(offset as int, text@),
    {
        let ghost before = self.strings();
        self.0.insert(offset, text);
        assert(self.strings() =~= before.insert(offset as int, text@));
    }

    /// Reads the pool of the table at the front of `stream`.
    pub fn new(stream: &[u8], header: &TableHeader) -> (r: Result<Self, TableError>)
        ensures
            match stream_strings(stream@, *header) {
                Ok(strings) => r matches Ok(pool) && pool.strings() == strings,
                Err(e) => r matches Err(f) && f == e,
            },
    {
        let strings_offset: u64 = header.string_pool_offset();
        let data_offset: u64 = header.data_pool_offset();
        if data_offset < strings_offset {
            return Err(TableError::InvalidPoolOffsets);
        }
        if data_offset == strings_offset {
            let nothing: Vec<u8> = Vec::new();
            assert(nothing@ =~= Seq::empty());
            return parse_strings(nothing.as_slice(), header.encoding());
        }
        if data_offset > stream.len() as u64 {
            return Err(TableError::UnexpectedEof);
        }
        Self::new_borrowed(
            slice_subrange(stream, strings_offset as usize, data_offset as usize),
            header,
        )
    }

    /// Reads the pool that `pool` holds from its first byte on.
    pub(crate) fn new_borrowed(pool: &[u8], header: &TableHeader) -> (r: Result<Self, TableError>)
        ensures
            match pool_strings(pool@, header.string_encoding) {
                Ok(strings) => r matches Ok(p) && p.strings() == strings,
                Err(e) => r matches Err(f) && f == e,
            },
    {
        parse_strings(pool, header.encoding())
    }
}

impl StringPool for StringPoolFast {
    closed spec fn strings(&self) -> Map<int, Seq<char>> {
        Map::new(
            |at: int| 0 <= at <= usize::MAX && self.0@.contains_key(at as usize),
            |at: int| self.0@[at as usize]@,
        )
    }

    fn get_string(&self, offset: u32) -> (text: Option<&str>) {
        match self.0.get(&(offset as usize)) {
            Some(text) => Some(text.as_str()),
            None => None,
        }
    }
}

/// A string pool read from the stream that holds the table.
#[derive(Debug)]
pub struct StringPoolImpl {
    pool: StringPoolFast,
}

impl StringPoolImpl {
    /// Reads the pool of the table at the front of `stream`.
    pub fn new(stream: &[u8], header: &TableHeader) -> (r: Result<Self, TableError>)
        ensures
            match stream_strings(stream@, *header) {
                Ok(strings) => r matches Ok(pool) && pool.strings() == strings,
                Err(e) => r matches Err(f) && f == e,
            },
    {
        match StringPoolFast::new(stream, header) {
            Ok(pool) => Ok(StringPoolImpl { pool }),
            Err(e) => Err(e),
        }
    }
}

impl StringPool for StringPoolImpl {
    closed spec fn strings(&self) -> Map<int, Seq<char>> {
        self.pool.strings()
    }

    fn get_string(&self, offset: u32) -> (text: Option<&str>) {
        self.pool.get_string(offset)
    }
}

fn parse_strings(stream: &[u8], encoding: StringEncoding) -> (r: Result<StringPoolFast, TableError>)
    ensures
        match pool_strings(stream@, encoding) {
            Ok(strings) => r matches Ok(pool) && pool.strings() == strings,
            Err(e) => r matches Err(f) && f == e,
        },
{
    let ghost s = stream@;
    let mut pool = StringPoolFast::empty();
    let mut offset: usize = 0;
    while offset < stream.len()
        invariant
            s == stream@,
            offset <= s.len(),
            offset < s.len() ==> string_begins(s, offset as int),
            offset > 0 ==> s[offset - 1] == 0,
            forall|at: int| 0 <= at < offset ==> !undecodable_at(s, at, encoding),
            pool.strings().dom() =~= Set::new(|at: int| at < offset && string_begins(s, at)),
            forall|at: int|
                pool.strings().contains_key(at) ==> pool.strings()[at] == text_of(
                    string_bytes(s, at),
                    encoding,
                ),
        decreases s.len() - offset,
    {
        let end: usize = find_zero(stream, offset);
        proof {
            lemma_zero_from(s, offset as int);
        }
        if end == stream.len() {
            proof {
                assert forall|at: int| !undecodable_at(s, at, encoding) by {
                    if at > offset && string_begins(s, at) {
                        assert(s[at - 1] != 0);
                    }
                }
                assert(s.last() != 0);
            }
            return Err(TableError::UnterminatedString);
        }
        let text = match decode_string(slice_subrange(stream, offset, end), encoding) {
            Ok(text) => text,
            Err(e) => {
                assert(undecodable_at(s, offset as int, encoding));
                return Err(e);
            },
        };
        proof {
            assert forall|at: int| offset < at <= end implies !string_begins(s, at) by {
                assert(s[at - 1] != 0);
            }
        }
        pool.insert(offset, text);
        offset = end + 1;
    }
    proof {
        assert forall|at: int| !undecodable_at(s, at, encoding) by {}
        let strings = Map::new(
            |at: int| string_begins(s, at),
            |at: int| text_of(string_bytes(s, at), encoding),
        );
        assert(pool.strings() =~= strings);
    }
    Ok(pool)
}

} // verus!
