//! The XOR cipher of `@UTF` tables.

use vstd::arithmetic::power::pow;
use vstd::prelude::*;

use crate::utils::bytes::{copy_range, starts_with};

verus! {

/// The key byte for the table byte `i`.
pub open spec fn key_byte(i: nat) -> u8
    decreases i,
{
    if i == 0 {
        0x5f
    } else {
        (key_byte((i - 1) as nat) as int * 0x15 % 0x100) as u8
    }
}

/// The table bytes with the key stream applied.
pub open spec fn table_cipher(s: Seq<u8>) -> Seq<u8> {
    Seq::new(s.len(), |i: int| s[i] ^ key_byte(i as nat))
}

/// What the signature `@UTF` becomes under the cipher.
pub open spec fn encrypted_prefix() -> Seq<u8> {
    seq![0x1fu8, 0x9eu8, 0xf3u8, 0xf5u8]
}

/// The signature of a plain table.
pub open spec fn utf_signature() -> Seq<u8> {
    seq![0x40u8, 0x55u8, 0x54u8, 0x46u8]
}

/// The cipher undoes itself.
pub proof fn law_table_cipher_is_symmetric(s: Seq<u8>)
    ensures
        table_cipher(table_cipher(s)) == s,
{
    assert forall|i: int| 0 <= i < s.len() implies #[trigger] table_cipher(table_cipher(s))[i]
        == s[i] by {
        let b = s[i];
        let k = key_byte(i as nat);
        assert((b ^ k) ^ k == b) by (bit_vector);
    }
    assert(table_cipher(table_cipher(s)) =~= s);
}

/// The key runs through the powers of its factor: the key byte at `i` is the first
/// one times the `i`-th power, in eight bits.
pub proof fn law_key_bytes_are_powers(i: nat)
    ensures
        key_byte(i) == 0x5f * pow(0x15, i) % 0x100,
    decreases i,
{
    reveal(pow);
    if i > 0 {
        let before = (i - 1) as nat;
        law_key_bytes_are_powers(before);
        let p = pow(0x15, before);
        vstd::arithmetic::div_mod::lemma_mul_mod_noop_left(0x5f * p, 0x15, 0x100);
        assert(0x5f * p * 0x15 == 0x5f * (0x15 * p)) by (nonlinear_arith);
    }
}

/// Every byte of a table is encrypted by exclusive or with a power of the key's
/// factor: the byte at `i` with the `i`-th, and no byte depends on another.
pub proof fn law_cipher_applies_key_powers(s: Seq<u8>, i: int)
    requires
        0 <= i < s.len(),
    ensures
        table_cipher(s).len() == s.len(),
        table_cipher(s)[i] == s[i] ^ ((0x5f * pow(0x15, i as nat) % 0x100) as u8),
{
    law_key_bytes_are_powers(i as nat);
}

/// A table carries the encrypted prefix exactly when it decrypts to bytes with
/// the `@UTF` signature.
pub proof fn law_encrypted_prefix_hides_signature(s: Seq<u8>)
    ensures
        encrypted_prefix().is_prefix_of(s) <==> utf_signature().is_prefix_of(table_cipher(s)),
{
    reveal_with_fuel(key_byte, 5);
    assert(key_byte(0) == 0x5f && key_byte(1) == 0xcb && key_byte(2) == 0xa7 && key_byte(3)
        == 0xb3);
    let t = table_cipher(s);
    if s.len() >= 4 {
        let (a, b, c, d) = (s[0], s[1], s[2], s[3]);
        assert((a ^ 0x5f == 0x40 <==> a == 0x1f) && (b ^ 0xcb == 0x55 <==> b == 0x9e) && (c ^ 0xa7
            == 0x54 <==> c == 0xf3) && (d ^ 0xb3 == 0x46 <==> d == 0xf5)) by (bit_vector);
        assert(t[0] == a ^ 0x5f && t[1] == b ^ 0xcb && t[2] == c ^ 0xa7 && t[3] == d ^ 0xb3);
        if encrypted_prefix().is_prefix_of(s) {
            let p = s.subrange(0, 4);
            assert(p[0] == a && p[1] == b && p[2] == c && p[3] == d);
            assert(t.subrange(0, 4) =~= utf_signature());
        }
        if utf_signature().is_prefix_of(t) {
            let p = t.subrange(0, 4);
            assert(p[0] == t[0] && p[1] == t[1] && p[2] == t[2] && p[3] == t[3]);
            assert(s.subrange(0, 4) =~= encrypted_prefix());
        }
    }
}

/// Recognises and decrypts encrypted tables.
#[derive(Debug)]
pub struct TableDecryptor;

impl TableDecryptor {
    /// Whether the bytes begin like an encrypted table.
    pub fn is_encrypted(bytes: &[u8]) -> (yes: bool)
        ensures
            yes == encrypted_prefix().is_prefix_of(bytes@),
    {
        let prefix: Vec<u8> = vec![0x1f, 0x9e, 0xf3, 0xf5];
        assert(prefix@ =~= encrypted_prefix());
        starts_with(bytes, prefix.as_slice())
    }

    /// The decrypted table.
    pub fn decrypt_utf(input: &[u8]) -> (result: Vec<u8>)
        ensures
            result@ == table_cipher(input@),
            result@.len() == input@.len(),
            forall|i: int|
                0 <= i < input@.len() ==> #[trigger] result@[i] == input@[i] ^ ((0x5f * pow(
                    0x15,
                    i as nat,
                ) % 0x100) as u8),
    {
        let mut result = copy_range(input, 0, input.len());
        assert(result@ =~= input@);
        Self::decrypt_utf_in_place(result.as_mut_slice());
        result
    }

    /// Decrypts the table where it stands.
    pub fn decrypt_utf_in_place(input: &mut [u8])
        ensures
            final(input)@ == table_cipher(old(input)@),
            final(input)@.len() == old(input)@.len(),
            forall|i: int|
                0 <= i < old(input)@.len() ==> #[trigger] final(input)@[i] == old(input)@[i] ^ ((
                0x5f * pow(0x15, i as nat) % 0x100) as u8),
    {
        let ghost before = input@;
        let mut key: u8 = 0x5f;
        let mut i: usize = 0;
        while i < input.len()
            invariant
                i <= before.len(),
                input@.len() == before.len(),
                key == key_byte(i as nat),
                forall|j: int| 0 <= j < i ==> #[trigger] input@[j] == table_cipher(before)[j],
                forall|j: int| i <= j < before.len() ==> #[trigger] input@[j] == before[j],
            decreases before.len() - i,
        {
            let byte: u8 = input[i];
            input[i] = byte ^ key;
            key = key.wrapping_mul(0x15);
            i = i + 1;
        }
        assert(input@ =~= table_cipher(before));
        proof {
            assert forall|j: int| 0 <= j < before.len() implies #[trigger] input@[j] == before[j]
                ^ ((0x5f * pow(0x15, j as nat) % 0x100) as u8) by {
                law_cipher_applies_key_powers(before, j);
            }
        }
    }
}

} // verus!
