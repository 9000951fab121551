//! Fixed-width integers in byte sequences.
//!
//! `@UTF` tables are big-endian; the chunk header around a table is
//! little-endian.

use vstd::arithmetic::power::pow;
use vstd::prelude::*;
use vstd::slice::slice_subrange;

verus! {

/// The big-endian `u16` stored at `at`.
#[verifier::opaque]
pub open spec fn be_u16(s: Seq<u8>, at: int) -> u16 {
    (s[at] * 0x100 + s[at + 1]) as u16
}

/// The big-endian `u32` stored at `at`.
#[verifier::opaque]
pub open spec fn be_u32(s: Seq<u8>, at: int) -> u32 {
    (s[at] * 0x100_0000 + s[at + 1] * 0x1_0000 + s[at + 2] * 0x100 + s[at + 3]) as u32
}

/// The big-endian `u64` stored at `at`.
#[verifier::opaque]
pub open spec fn be_u64(s: Seq<u8>, at: int) -> u64 {
    (be_u32(s, at) * 0x1_0000_0000 + be_u32(s, at + 4)) as u64
}

/// The little-endian `u32` stored at `at`.
#[verifier::opaque]
pub open spec fn le_u32(s: Seq<u8>, at: int) -> u32 {
    (s[at] + s[at + 1] * 0x100 + s[at + 2] * 0x1_0000 + s[at + 3] * 0x100_0000) as u32
}

/// The little-endian `u64` stored at `at`.
#[verifier::opaque]
pub open spec fn le_u64(s: Seq<u8>, at: int) -> u64 {
    (le_u32(s, at) + le_u32(s, at + 4) * 0x1_0000_0000) as u64
}

/// The two bytes of `v`, most significant first.
#[verifier::opaque]
pub open spec fn be16(v: u16) -> Seq<u8> {
    seq![(v / 0x100) as u8, (v % 0x100) as u8]
}

/// The four bytes of `v`, most significant first.
#[verifier::opaque]
pub open spec fn be32(v: u32) -> Seq<u8> {
    seq![
        (v / 0x100_0000) as u8,
        (v / 0x1_0000 % 0x100) as u8,
        (v / 0x100 % 0x100) as u8,
        (v % 0x100) as u8,
    ]
}

/// The eight bytes of `v`, most significant first.
#[verifier::opaque]
pub open spec fn be64(v: u64) -> Seq<u8> {
    be32((v / 0x1_0000_0000) as u32) + be32((v % 0x1_0000_0000) as u32)
}

/// The four bytes of `v`, least significant first.
#[verifier::opaque]
pub open spec fn le32(v: u32) -> Seq<u8> {
    seq![
        (v % 0x100) as u8,
        (v / 0x100 % 0x100) as u8,
        (v / 0x1_0000 % 0x100) as u8,
        (v / 0x100_0000) as u8,
    ]
}

/// The eight bytes of `v`, least significant first.
#[verifier::opaque]
pub open spec fn le64(v: u64) -> Seq<u8> {
    le32((v % 0x1_0000_0000) as u32) + le32((v / 0x1_0000_0000) as u32)
}

pub broadcast proof fn lemma_be16_len(v: u16)
    ensures
        (#[trigger] be16(v)).len() == 2,
{
    reveal(be16);
}

pub broadcast proof fn lemma_be32_len(v: u32)
    ensures
        (#[trigger] be32(v)).len() == 4,
{
    reveal(be32);
}

pub broadcast proof fn lemma_be64_len(v: u64)
    ensures
        (#[trigger] be64(v)).len() == 8,
{
    reveal(be64);
    reveal(be32);
}

pub broadcast proof fn lemma_le64_len(v: u64)
    ensures
        (#[trigger] le64(v)).len() == 8,
{
    reveal(le64);
    reveal(le32);
}

/// The widths of stored integers.
pub broadcast group group_stored_widths {
    lemma_be16_len,
    lemma_be32_len,
    lemma_be64_len,
    lemma_le64_len,
}

/// `n` zero bytes.
pub open spec fn zeros(n: int) -> Seq<u8> {
    Seq::new(if n < 0 { 0 } else { n as nat }, |i: int| 0u8)
}

/// `piece` stands in `s` at offset `at`.
pub open spec fn stands_at(s: Seq<u8>, at: int, piece: Seq<u8>) -> bool {
    &&& 0 <= at
    &&& at + piece.len() <= s.len()
    &&& s.subrange(at, at + piece.len()) == piece
}

/// A `u16` written big-endian is read back.
pub proof fn lemma_be16_read(s: Seq<u8>, at: int, v: u16)
    requires
        stands_at(s, at, be16(v)),
    ensures
        be_u16(s, at) == v,
{
    reveal(be16);
    reveal(be_u16);
    let p = s.subrange(at, at + 2);
    assert(p[0] == s[at] && p[1] == s[at + 1]);
}

/// A `u32` is the sum of its four bytes.
proof fn lemma_four_bytes(v: u32)
    ensures
        v / 0x100_0000 <= 0xff,
        v / 0x100_0000 * 0x100_0000 + v / 0x1_0000 % 0x100 * 0x1_0000 + v / 0x100 % 0x100 * 0x100
            + v % 0x100 == v,
{
    assert(v / 0x100_0000 <= 0xff && v / 0x100_0000 * 0x100_0000 + v / 0x1_0000 % 0x100 * 0x1_0000
        + v / 0x100 % 0x100 * 0x100 + v % 0x100 == v) by (bit_vector);
}

/// A `u32` written big-endian is read back.
pub proof fn lemma_be32_read(s: Seq<u8>, at: int, v: u32)
    requires
        stands_at(s, at, be32(v)),
    ensures
        be_u32(s, at) == v,
{
    reveal(be32);
    reveal(be_u32);
    let p = s.subrange(at, at + 4);
    assert(p[0] == s[at] && p[1] == s[at + 1] && p[2] == s[at + 2] && p[3] == s[at + 3]);
    lemma_four_bytes(v);
}

/// A `u64` written big-endian is read back.
pub proof fn lemma_be64_read(s: Seq<u8>, at: int, v: u64)
    requires
        stands_at(s, at, be64(v)),
    ensures
        be_u64(s, at) == v,
{
    reveal(be64);
    reveal(be_u64);
    broadcast use group_stored_widths;

    let hi = (v / 0x1_0000_0000) as u32;
    let lo = (v % 0x1_0000_0000) as u32;
    let p = s.subrange(at, at + 8);
    assert(p == be64(v));
    assert(s.subrange(at, at + 4) =~= be64(v).subrange(0, 4));
    assert(be64(v).subrange(0, 4) =~= be32(hi));
    assert(s.subrange(at + 4, at + 8) =~= be64(v).subrange(4, 8));
    assert(be64(v).subrange(4, 8) =~= be32(lo));
    lemma_be32_read(s, at, hi);
    lemma_be32_read(s, at + 4, lo);
}

/// A `u32` written little-endian is read back.
pub proof fn lemma_le32_read(s: Seq<u8>, at: int, v: u32)
    requires
        stands_at(s, at, le32(v)),
    ensures
        le_u32(s, at) == v,
{
    reveal(le32);
    reveal(le_u32);
    let p = s.subrange(at, at + 4);
    assert(p[0] == s[at] && p[1] == s[at + 1] && p[2] == s[at + 2] && p[3] == s[at + 3]);
    lemma_four_bytes(v);
}

/// A `u64` written little-endian is read back.
pub proof fn lemma_le64_read(s: Seq<u8>, at: int, v: u64)
    requires
        stands_at(s, at, le64(v)),
    ensures
        le_u64(s, at) == v,
{
    reveal(le64);
    reveal(le_u64);
    reveal(le32);
    let lo = (v % 0x1_0000_0000) as u32;
    let hi = (v / 0x1_0000_0000) as u32;
    let p = s.subrange(at, at + 8);
    assert(p == le64(v));
    assert(s.subrange(at, at + 4) =~= le64(v).subrange(0, 4));
    assert(le64(v).subrange(0, 4) =~= le32(lo));
    assert(s.subrange(at + 4, at + 8) =~= le64(v).subrange(4, 8));
    assert(le64(v).subrange(4, 8) =~= le32(hi));
    lemma_le32_read(s, at, lo);
    lemma_le32_read(s, at + 4, hi);
}

/// The powers of 256 that count in 64 bits.
proof fn lemma_byte_powers()
    ensures
        pow(0x100, 0) == 1,
        pow(0x100, 1) == 0x100,
        pow(0x100, 2) == 0x1_0000,
        pow(0x100, 3) == 0x100_0000,
        pow(0x100, 4) == 0x1_0000_0000,
        pow(0x100, 5) == 0x100_0000_0000,
        pow(0x100, 6) == 0x1_0000_0000_0000,
        pow(0x100, 7) == 0x100_0000_0000_0000,
{
    reveal_with_fuel(pow, 9);
}

/// The halves of a `u64` hold its digits in base 256.
proof fn lemma_halves(v: u64)
    ensures
        ({
            let hi = v / 0x1_0000_0000;
            let lo = v % 0x1_0000_0000;
            &&& hi <= 0xffff_ffff && lo <= 0xffff_ffff
            &&& hi / 0x100_0000 == v / 0x100_0000_0000_0000 % 0x100
            &&& hi / 0x1_0000 % 0x100 == v / 0x1_0000_0000_0000 % 0x100
            &&& hi / 0x100 % 0x100 == v / 0x100_0000_0000 % 0x100
            &&& hi % 0x100 == v / 0x1_0000_0000 % 0x100
            &&& lo / 0x100_0000 == v / 0x100_0000 % 0x100
            &&& lo / 0x1_0000 % 0x100 == v / 0x1_0000 % 0x100
            &&& lo / 0x100 % 0x100 == v / 0x100 % 0x100
            &&& lo % 0x100 == v % 0x100
        }),
{
    assert(v / 0x1_0000_0000 <= 0xffff_ffff && v % 0x1_0000_0000 <= 0xffff_ffff) by (bit_vector);
    assert(v / 0x1_0000_0000 / 0x100_0000 == v / 0x100_0000_0000_0000 % 0x100 && v / 0x1_0000_0000
        / 0x1_0000 % 0x100 == v / 0x1_0000_0000_0000 % 0x100 && v / 0x1_0000_0000 / 0x100 % 0x100
        == v / 0x100_0000_0000 % 0x100) by (bit_vector);
    assert(v % 0x1_0000_0000 / 0x100_0000 == v / 0x100_0000 % 0x100 && v % 0x1_0000_0000 / 0x1_0000
        % 0x100 == v / 0x1_0000 % 0x100 && v % 0x1_0000_0000 / 0x100 % 0x100 == v / 0x100 % 0x100
        && v % 0x1_0000_0000 % 0x100 == v % 0x100) by (bit_vector);
}

/// Big-endian bytes are the digits of a number in base 256, the highest first.
pub proof fn law_big_endian_bytes_are_digits(a: u16, b: u32, c: u64, i: int)
    ensures
        0 <= i < 2 ==> be16(a)[i] == a as int / pow(0x100, (1 - i) as nat) % 0x100,
        0 <= i < 4 ==> be32(b)[i] == b as int / pow(0x100, (3 - i) as nat) % 0x100,
        0 <= i < 8 ==> be64(c)[i] == c as int / pow(0x100, (7 - i) as nat) % 0x100,
{
    reveal(be16);
    reveal(be32);
    reveal(be64);
    lemma_byte_powers();
    lemma_halves(c);
    lemma_four_bytes(b);
    assert(b / 0x100_0000 == b / 0x100_0000 % 0x100) by (bit_vector);
    assert(a / 0x100 == a / 0x100 % 0x100) by (bit_vector);
}

/// Little-endian bytes are the digits of a number in base 256, the lowest first.
pub proof fn law_little_endian_bytes_are_digits(c: u64, i: int)
    ensures
        0 <= i < 8 ==> le64(c)[i] == c as int / pow(0x100, i as nat) % 0x100,
{
    reveal(le32);
    reveal(le64);
    lemma_byte_powers();
    lemma_halves(c);
}

/// Every run of bytes is what writing the number that is read of it gives.
pub proof fn law_numbers_are_written_as_read(s: Seq<u8>, at: int)
    requires
        0 <= at,
    ensures
        at + 2 <= s.len() ==> be16(be_u16(s, at)) == s.subrange(at, at + 2),
        at + 4 <= s.len() ==> be32(be_u32(s, at)) == s.subrange(at, at + 4),
        at + 8 <= s.len() ==> be64(be_u64(s, at)) == s.subrange(at, at + 8),
        at + 8 <= s.len() ==> le64(le_u64(s, at)) == s.subrange(at, at + 8),
{
    if at + 2 <= s.len() {
        lemma_be16_written(s, at);
    }
    if at + 4 <= s.len() {
        lemma_be32_written(s, at);
    }
    if at + 8 <= s.len() {
        lemma_be32_written(s, at);
        lemma_be32_written(s, at + 4);
        lemma_le32_written(s, at);
        lemma_le32_written(s, at + 4);
        reveal(be64);
        reveal(be_u64);
        reveal(le64);
        reveal(le_u64);
        assert(s.subrange(at, at + 8) =~= s.subrange(at, at + 4) + s.subrange(at + 4, at + 8));
    }
}

proof fn lemma_be16_written(s: Seq<u8>, at: int)
    requires
        0 <= at,
        at + 2 <= s.len(),
    ensures
        be16(be_u16(s, at)) == s.subrange(at, at + 2),
{
    reveal(be16);
    reveal(be_u16);
    assert(be16(be_u16(s, at)) =~= s.subrange(at, at + 2));
}

proof fn lemma_be32_written(s: Seq<u8>, at: int)
    requires
        0 <= at,
        at + 4 <= s.len(),
    ensures
        be32(be_u32(s, at)) == s.subrange(at, at + 4),
{
    reveal(be32);
    reveal(be_u32);
    lemma_assembled(s[at], s[at + 1], s[at + 2], s[at + 3]);
    assert(be32(be_u32(s, at)) =~= s.subrange(at, at + 4));
}

proof fn lemma_le32_written(s: Seq<u8>, at: int)
    requires
        0 <= at,
        at + 4 <= s.len(),
    ensures
        le32(le_u32(s, at)) == s.subrange(at, at + 4),
{
    reveal(le32);
    reveal(le_u32);
    lemma_assembled(s[at + 3], s[at + 2], s[at + 1], s[at]);
    assert(le32(le_u32(s, at)) =~= s.subrange(at, at + 4));
}

/// Four bytes are the digits of the number they make.
proof fn lemma_assembled(a: u8, b: u8, c: u8, d: u8)
    ensures
        ({
            let v = a * 0x100_0000 + b * 0x1_0000 + c * 0x100 + d;
            &&& v <= u32::MAX
            &&& v / 0x100_0000 == a
            &&& v / 0x1_0000 % 0x100 == b
            &&& v / 0x100 % 0x100 == c
            &&& v % 0x100 == d
        }),
{
}

/// A piece of a piece stands where the outer offset plus the inner one says.
pub proof fn lemma_stands_within(s: Seq<u8>, at: int, outer: Seq<u8>, within: int, inner: Seq<u8>)
    requires
        stands_at(s, at, outer),
        stands_at(outer, within, inner),
    ensures
        stands_at(s, at + within, inner),
{
    assert(s.subrange(at + within, at + within + inner.len()) =~= s.subrange(
        at,
        at + outer.len(),
    ).subrange(within, within + inner.len()));
}

/// Reads a big-endian `u16`.
pub fn read_be_u16(s: &[u8], at: usize) -> (v: u16)
    requires
        at + 2 <= s@.len(),
    ensures
        v == be_u16(s@, at as int),
{
    proof {
        reveal(be_u16);
    }
    s[at] as u16 * 0x100 + s[at + 1] as u16
}

/// Reads a big-endian `u32`.
pub fn read_be_u32(s: &[u8], at: usize) -> (v: u32)
    requires
        at + 4 <= s@.len(),
    ensures
        v == be_u32(s@, at as int),
{
    proof {
        reveal(be_u32);
    }
    s[at] as u32 * 0x100_0000 + s[at + 1] as u32 * 0x1_0000 + s[at + 2] as u32 * 0x100
        + s[at + 3] as u32
}

/// Reads a big-endian `u64`.
pub fn read_be_u64(s: &[u8], at: usize) -> (v: u64)
    requires
        at + 8 <= s@.len(),
    ensures
        v == be_u64(s@, at as int),
{
    proof {
        reveal(be_u64);
    }
    assert(at + 8 <= s.len());
    let hi: u32 = read_be_u32(s, at);
    let lo: u32 = read_be_u32(s, at + 4);
    hi as u64 * 0x1_0000_0000 + lo as u64
}

/// Reads a little-endian `u64`.
pub fn read_le_u64(s: &[u8], at: usize) -> (v: u64)
    requires
        at + 8 <= s@.len(),
    ensures
        v == le_u64(s@, at as int),
{
    proof {
        reveal(le_u64);
        reveal(le_u32);
    }
    let lo: u32 = s[at] as u32 + s[at + 1] as u32 * 0x100 + s[at + 2] as u32 * 0x1_0000
        + s[at + 3] as u32 * 0x100_0000;
    let hi: u32 = s[at + 4] as u32 + s[at + 5] as u32 * 0x100 + s[at + 6] as u32 * 0x1_0000
        + s[at + 7] as u32 * 0x100_0000;
    lo as u64 + hi as u64 * 0x1_0000_0000
}

/// Appends `bytes` to `out`.
pub fn push_bytes(out: &mut Vec<u8>, bytes: &[u8])
    ensures
        final(out)@ == old(out)@ + bytes@,
{
    let ghost before = out@;
    out.extend_from_slice(bytes);
    assert(out@ =~= before + bytes@);
}

/// Appends the two bytes of `v`, most significant first.
pub fn push_be_u16(out: &mut Vec<u8>, v: u16)
    ensures
        final(out)@ == old(out)@ + be16(v),
{
    proof {
        reveal(be16);
    }
    let ghost before = out@;
    out.push((v / 0x100) as u8);
    out.push((v % 0x100) as u8);
    assert(out@ =~= before + be16(v));
}

/// Appends the four bytes of `v`, most significant first.
pub fn push_be_u32(out: &mut Vec<u8>, v: u32)
    ensures
        final(out)@ == old(out)@ + be32(v),
{
    proof {
        reveal(be32);
    }
    let ghost before = out@;
    out.push((v / 0x100_0000) as u8);
    out.push((v / 0x1_0000 % 0x100) as u8);
    out.push((v / 0x100 % 0x100) as u8);
    out.push((v % 0x100) as u8);
    assert(out@ =~= before + be32(v));
}

/// Appends the eight bytes of `v`, most significant first.
pub fn push_be_u64(out: &mut Vec<u8>, v: u64)
    ensures
        final(out)@ == old(out)@ + be64(v),
{
    proof {
        reveal(be64);
    }
    let ghost before = out@;
    push_be_u32(out, (v / 0x1_0000_0000) as u32);
    push_be_u32(out, (v % 0x1_0000_0000) as u32);
    assert(out@ =~= before + be64(v));
}

/// Appends the eight bytes of `v`, least significant first.
pub fn push_le_u64(out: &mut Vec<u8>, v: u64)
    ensures
        final(out)@ == old(out)@ + le64(v),
{
    proof {
        reveal(le64);
        reveal(le32);
    }
    let ghost before = out@;
    let lo: u32 = (v % 0x1_0000_0000) as u32;
    let hi: u32 = (v / 0x1_0000_0000) as u32;
    out.push((lo % 0x100) as u8);
    out.push((lo / 0x100 % 0x100) as u8);
    out.push((lo / 0x1_0000 % 0x100) as u8);
    out.push((lo / 0x100_0000) as u8);
    out.push((hi % 0x100) as u8);
    out.push((hi / 0x100 % 0x100) as u8);
    out.push((hi / 0x1_0000 % 0x100) as u8);
    out.push((hi / 0x100_0000) as u8);
    assert(out@ =~= before + le64(v));
}

/// Appends `count` zero bytes.
pub fn push_zeros(out: &mut Vec<u8>, count: u64)
    ensures
        final(out)@ == old(out)@ + zeros(count as int),
{
    let ghost before = out@;
    let mut left: u64 = count;
    while left != 0
        invariant
            left <= count,
            out@ =~= before + zeros(count - left),
        decreases left,
    {
        out.push(0);
        left = left - 1;
    }
}

/// Whether `s` begins with `prefix`.
pub fn starts_with(s: &[u8], prefix: &[u8]) -> (yes: bool)
    ensures
        yes == prefix@.is_prefix_of(s@),
{
    if s.len() < prefix.len() {
        return false;
    }
    let mut i: usize = 0;
    while i < prefix.len()
        invariant
            i <= prefix@.len() <= s@.len(),
            forall|k: int| 0 <= k < i ==> s@[k] == prefix@[k],
        decreases prefix@.len() - i,
    {
        if s[i] != prefix[i] {
            assert(s@.subrange(0, prefix@.len() as int)[i as int] != prefix@[i as int]);
            return false;
        }
        i = i + 1;
    }
    assert(s@.subrange(0, prefix@.len() as int) =~= prefix@);
    true
}

/// The bytes `start..end` of `s`, as a vector of their own.
pub fn copy_range(s: &[u8], start: usize, end: usize) -> (out: Vec<u8>)
    requires
        start <= end <= s@.len(),
    ensures
        out@ == s@.subrange(start as int, end as int),
{
    let mut out: Vec<u8> = Vec::new();
    push_bytes(&mut out, slice_subrange(s, start, end));
    assert(out@ =~= s@.subrange(start as int, end as int));
    out
}

} // verus!
