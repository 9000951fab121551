//! The hash by which files are told unchanged: 64-bit FNV-1a.

use vstd::prelude::*;

verus! {

pub const FNV_OFFSET_BASIS: u64 = 0xcbf29ce484222325;

pub const FNV_PRIME: u64 = 0x100000001b3;

/// The hash with one more byte in it.
pub open spec fn hash_step(hash: u64, byte: u8) -> u64 {
    ((hash ^ (byte as u64)) as int * FNV_PRIME % 0x1_0000_0000_0000_0000) as u64
}

/// The hash with more bytes in it.
pub open spec fn hash_from(hash: u64, bytes: Seq<u8>) -> u64
    decreases bytes.len(),
{
    if bytes.len() == 0 {
        hash
    } else {
        hash_step(hash_from(hash, bytes.drop_last()), bytes.last())
    }
}

/// The hash of a byte sequence.
pub open spec fn hash_of(bytes: Seq<u8>) -> u64 {
    hash_from(FNV_OFFSET_BASIS, bytes)
}

/// Hashing a sequence in two pieces gives the hash of the whole.
pub proof fn law_hash_in_pieces(hash: u64, a: Seq<u8>, b: Seq<u8>)
    ensures
        hash_from(hash_from(hash, a), b) == hash_from(hash, a + b),
    decreases b.len(),
{
    if b.len() == 0 {
        assert(a + b =~= a);
    } else {
        law_hash_in_pieces(hash, a, b.drop_last());
        assert((a + b).drop_last() =~= a + b.drop_last());
        assert((a + b).last() == b.last());
    }
}

/// The number by which the multiplication with the FNV prime is undone, in 64
/// bits.
pub const FNV_INVERSE: u64 = 0xce965057aff6957b;

/// A step of the hash takes the whole byte in by exclusive or and then multiplies
/// by the FNV prime: undoing the multiplication leaves the hash with the byte in
/// its lowest bits.
pub proof fn law_hash_step_is_undone(hash: u64, byte: u8)
    ensures
        hash_step(hash, byte) * FNV_INVERSE % 0x1_0000_0000_0000_0000 == hash ^ (byte as u64),
        FNV_INVERSE * 0x100000001b3 % 0x1_0000_0000_0000_0000 == 1,
{
    let x = (hash ^ (byte as u64)) as int;
    let m = 0x1_0000_0000_0000_0000int;
    let p = 0x100000001b3int;
    let q = FNV_INVERSE as int;
    assert(p * q == 887285111055 * m + 1);
    vstd::arithmetic::div_mod::lemma_mul_mod_noop_left(x * p, q, m);
    assert(x * p * q == m * (887285111055 * x) + x) by (nonlinear_arith)
        requires
            p * q == 887285111055 * m + 1,
    ;
    vstd::arithmetic::div_mod::lemma_mod_multiples_vanish(887285111055 * x, x, m);
    vstd::arithmetic::div_mod::lemma_small_mod(x as nat, m as nat);
    vstd::arithmetic::div_mod::lemma_mod_multiples_vanish(887285111055, 1, m);
}

/// A step keeps hashes apart, and bytes.
pub proof fn law_hash_step_keeps_apart(hash: u64, other: u64, byte: u8, last: u8)
    ensures
        hash != other ==> hash_step(hash, byte) != hash_step(other, byte),
        byte != last ==> hash_step(hash, byte) != hash_step(hash, last),
{
    law_hash_step_is_undone(hash, byte);
    law_hash_step_is_undone(other, byte);
    law_hash_step_is_undone(hash, last);
    assert(hash != other ==> hash ^ (byte as u64) != other ^ (byte as u64)) by (bit_vector);
    assert(byte != last ==> hash ^ (byte as u64) != hash ^ (last as u64)) by (bit_vector);
}

/// The same bytes keep different hashes apart.
pub proof fn law_hash_keeps_starts_apart(hash: u64, other: u64, bytes: Seq<u8>)
    requires
        hash != other,
    ensures
        hash_from(hash, bytes) != hash_from(other, bytes),
    decreases bytes.len(),
{
    if bytes.len() > 0 {
        law_hash_keeps_starts_apart(hash, other, bytes.drop_last());
        law_hash_step_keeps_apart(
            hash_from(hash, bytes.drop_last()),
            hash_from(other, bytes.drop_last()),
            bytes.last(),
            bytes.last(),
        );
    }
}

/// The hash tells that a file has changed where a single byte has: two sequences
/// that differ in just one byte never have the same hash.
pub proof fn law_hash_tells_a_changed_byte(hash: u64, bytes: Seq<u8>, at: int, changed: u8)
    requires
        0 <= at < bytes.len(),
        changed != bytes[at],
    ensures
        hash_from(hash, bytes.update(at, changed)) != hash_from(hash, bytes),
        hash_of(bytes.update(at, changed)) != hash_of(bytes),
{
    lemma_changed_byte(hash, bytes, at, changed);
    lemma_changed_byte(FNV_OFFSET_BASIS, bytes, at, changed);
}

proof fn lemma_changed_byte(hash: u64, bytes: Seq<u8>, at: int, changed: u8)
    requires
        0 <= at < bytes.len(),
        changed != bytes[at],
    ensures
        hash_from(hash, bytes.update(at, changed)) != hash_from(hash, bytes),
{
    let front = bytes.take(at);
    let back = bytes.skip(at + 1);
    let before = hash_from(hash, front);
    law_hash_in_pieces(hash, front.push(bytes[at]), back);
    law_hash_in_pieces(hash, front.push(changed), back);
    assert(front.push(bytes[at]) + back =~= bytes);
    assert(front.push(changed) + back =~= bytes.update(at, changed));
    assert(front.push(bytes[at]).drop_last() =~= front);
    assert(front.push(changed).drop_last() =~= front);
    law_hash_step_keeps_apart(before, before, bytes[at], changed);
    law_hash_keeps_starts_apart(hash_step(before, bytes[at]), hash_step(before, changed), back);
}

/// The hash of no bytes, and what one more byte makes of a hash: the hash is
/// that of 64-bit FNV-1a.
pub proof fn law_hash_of_one_more_byte(bytes: Seq<u8>, byte: u8)
    ensures
        hash_of(Seq::empty()) == 0xcbf29ce484222325,
        hash_of(bytes.push(byte)) * FNV_INVERSE % 0x1_0000_0000_0000_0000 == hash_of(bytes) ^ (
        byte as u64),
{
    assert(bytes.push(byte).drop_last() =~= bytes);
    law_hash_step_is_undone(hash_of(bytes), byte);
}

/// The hash with more bytes in it.
pub fn hash_update(hash: u64, bytes: &[u8]) -> (h: u64)
    ensures
        h == hash_from(hash, bytes@),
{
    let mut h: u64 = hash;
    let mut i: usize = 0;
    assert(bytes@.take(0) =~= Seq::empty());
    while i < bytes.len()
        invariant
            i <= bytes@.len(),
            h == hash_from(hash, bytes@.take(i as int)),
        decreases bytes@.len() - i,
    {
        assert(bytes@.take(i + 1).drop_last() =~= bytes@.take(i as int));
        h = (h ^ (bytes[i] as u64)).wrapping_mul(FNV_PRIME);
        i = i + 1;
    }
    assert(bytes@.take(bytes@.len() as int) =~= bytes@);
    h
}

/// The hash of a byte sequence.
pub fn hash_bytes(bytes: &[u8]) -> (h: u64)
    ensures
        h == hash_of(bytes@),
{
    hash_update(FNV_OFFSET_BASIS, bytes)
}

} // verus!
