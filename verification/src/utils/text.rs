//! Text: comparison, decoding and the numerals used in names and messages.

use vstd::prelude::*;
use vstd::slice::slice_subrange;
use vstd::string::*;
use vstd::utf8::*;

use crate::utils::bytes::starts_with;

verus! {

/// The text that Shift-JIS bytes stand for.
///
/// This is the text half of what `encoding_rs::SHIFT_JIS.decode` returns: a
/// leading byte order mark selects another encoding, and malformed sequences
/// become replacement characters.
pub uninterp spec fn shift_jis_text(bytes: Seq<u8>) -> Seq<char>;

/// The first byte at or behind `at` that is not ASCII; the length of `bytes` if
/// there is none.
pub open spec fn ascii_until(bytes: Seq<u8>, at: int) -> int
    decreases bytes.len() - at,
{
    if at >= bytes.len() {
        bytes.len() as int
    } else if bytes[at] >= 0x80 {
        at
    } else {
        ascii_until(bytes, at + 1)
    }
}

/// The byte order mark of UTF-8.
pub open spec fn utf8_mark() -> Seq<u8> {
    seq![0xefu8, 0xbbu8, 0xbfu8]
}

/// The bytes begin with a byte order mark of UTF-16.
pub open spec fn has_utf16_mark(bytes: Seq<u8>) -> bool {
    bytes.len() >= 2 && (bytes[0] == 0xff && bytes[1] == 0xfe || bytes[0] == 0xfe && bytes[1]
        == 0xff)
}

/// The largest buffer that the Shift-JIS decoder asks for. ASCII, and valid UTF-8
/// behind the byte order mark of UTF-8, are borrowed. Other Shift-JIS takes three
/// bytes for each byte from the first one that is not ASCII on, and UTF-16 three
/// for each pair. Malformed UTF-8 behind its mark is decoded into a buffer of a
/// power of two that may be doubled; this counts the doubled one, wanted or not.
pub open spec fn decode_buffer(bytes: Seq<u8>) -> int {
    let len = bytes.len() as int;
    if utf8_mark().is_prefix_of(bytes) {
        if valid_utf8(bytes.subrange(3, len)) {
            0
        } else {
            4 * len
        }
    } else if has_utf16_mark(bytes) {
        1 + 3 * ((len - 1) / 2)
    } else {
        let plain = ascii_until(bytes, 0);
        if plain == len {
            0
        } else {
            plain + 3 * (len - plain)
        }
    }
}

/// `encoding_rs::SHIFT_JIS.decode`, reduced to the decoded text.
///
/// The contract names that text; nothing else is claimed of it. Inputs whose
/// decoding takes a buffer that no allocation can have are excluded, because the
/// decoder panics on them.
#[verifier::external_body]
pub(crate) fn decode_shift_jis(bytes: &[u8]) -> (text: String)
    requires
        decode_buffer(bytes@) <= isize::MAX,
    ensures
        text@ == shift_jis_text(bytes@),
{
    let (decoded, _, _) = encoding_rs::SHIFT_JIS.decode(bytes);
    decoded.into_owned()
}

/// Whether the Shift-JIS decoder can have the buffer that it asks for.
pub(crate) fn decoder_has_room(bytes: &[u8]) -> (yes: bool)
    ensures
        yes == (decode_buffer(bytes@) <= isize::MAX),
{
    let limit: usize = isize::MAX as usize;
    let len: usize = bytes.len();
    let mark: Vec<u8> = vec![0xef, 0xbb, 0xbf];
    assert(mark@ =~= utf8_mark());
    if starts_with(bytes, mark.as_slice()) {
        return len <= limit / 4 || utf8_text(slice_subrange(bytes, 3, len)).is_some();
    }
    if len >= 2 && (bytes[0] == 0xff && bytes[1] == 0xfe || bytes[0] == 0xfe && bytes[1] == 0xff) {
        return (len - 1) / 2 <= (limit - 1) / 3;
    }
    let mut plain: usize = 0;
    while plain < len && bytes[plain] < 0x80
        invariant
            len == bytes@.len(),
            plain <= len,
            ascii_until(bytes@, 0) == ascii_until(bytes@, plain as int),
        decreases len - plain,
    {
        plain = plain + 1;
    }
    plain == len || plain <= limit && len - plain <= (limit - plain) / 3
}

/// `std::str::from_utf8`, copied into a string of its own.
///
/// The contract says that exactly the valid UTF-8 byte sequences are accepted,
/// and that the text is what they encode.
#[verifier::external_body]
pub(crate) fn utf8_text(bytes: &[u8]) -> (text: Option<String>)
    ensures
        text is Some <==> valid_utf8(bytes@),
        text matches Some(t) ==> t@ == decode_utf8(bytes@),
{
    match std::str::from_utf8(bytes) {
        Ok(text) => Some(text.to_owned()),
        Err(_) => None,
    }
}

/// `String::push`: the character is appended to the text.
pub assume_specification[ std::string::String::push ](text: &mut std::string::String, c: char)
    ensures
        final(text)@ == old(text)@.push(c),
;

/// Equal encodings come from equal texts.
pub proof fn lemma_encode_injective(a: Seq<char>, b: Seq<char>)
    requires
        encode_utf8(a) == encode_utf8(b),
    ensures
        a == b,
{
    encode_utf8_decode_utf8(a);
    encode_utf8_decode_utf8(b);
}

/// `text` holds no NUL character.
pub open spec fn no_nul(text: Seq<char>) -> bool {
    forall|i: int| 0 <= i < text.len() ==> #[trigger] text[i] != '\0'
}

/// The text in front of the first NUL character; all of it where there is none.
pub open spec fn before_nul(text: Seq<char>) -> Seq<char>
    decreases text.len(),
{
    if text.len() == 0 || text[0] == '\0' {
        Seq::empty()
    } else {
        seq![text[0]] + before_nul(text.drop_first())
    }
}

/// A NUL character is encoded as a zero byte, and no other character has one in
/// its encoding.
pub proof fn lemma_scalar_bytes(c: char)
    ensures
        c == '\0' ==> encode_scalar(c as u32) == seq![0u8],
        c != '\0' ==> forall|i: int|
            0 <= i < encode_scalar(c as u32).len() ==> #[trigger] encode_scalar(c as u32)[i] != 0,
{
    let v = c as u32;
    char_is_scalar(c);
    char_u32_cast(c, v);
    assert(has_width_1_encoding(0) && leading_byte_width_1(0) == 0) by (bit_vector);
    assert(has_width_1_encoding(v) && v != 0 ==> leading_byte_width_1(v) != 0) by (bit_vector);
    assert(leading_byte_width_2(v) != 0 && leading_byte_width_3(v) != 0 && leading_byte_width_4(v)
        != 0 && last_continuation_byte(v) != 0 && second_last_continuation_byte(v) != 0
        && third_last_continuation_byte(v) != 0) by (bit_vector);
    if c != '\0' {
        assert(v != 0);
    }
}

/// The encoding of a text without NUL characters has no zero byte.
pub proof fn lemma_no_nul_bytes(text: Seq<char>)
    requires
        no_nul(text),
    ensures
        forall|i: int| 0 <= i < encode_utf8(text).len() ==> #[trigger] encode_utf8(text)[i] != 0,
{
    assert forall|i: int| 0 <= i < encode_utf8(text).len() implies #[trigger] encode_utf8(text)[i]
        != 0 by {
        if encode_utf8(text)[i] == 0 {
            let k = lemma_zero_byte(text, i);
            assert(text[k] == '\0');
        }
    }
}

/// Texts are encoded one behind the other.
pub proof fn lemma_encode_append(a: Seq<char>, b: Seq<char>)
    ensures
        encode_utf8(a + b) == encode_utf8(a) + encode_utf8(b),
    decreases a.len(),
{
    if a.len() == 0 {
        assert(a + b =~= b);
        assert(encode_utf8(a) + encode_utf8(b) =~= encode_utf8(b));
    } else {
        lemma_encode_append(a.drop_first(), b);
        assert((a + b).drop_first() =~= a.drop_first() + b);
        assert(encode_utf8(a + b) =~= encode_utf8(a) + encode_utf8(b));
    }
}

/// A zero byte of an encoding stands for a NUL character.
pub proof fn lemma_zero_byte(text: Seq<char>, i: int) -> (k: int)
    requires
        0 <= i < encode_utf8(text).len(),
        encode_utf8(text)[i] == 0,
    ensures
        0 <= k < text.len(),
        text[k] == '\0',
        encode_utf8(text.take(k)).len() == i,
        encode_utf8(text.take(k + 1)).len() == i + 1,
    decreases text.len(),
{
    let head = encode_scalar(text[0] as u32);
    let rest = text.drop_first();
    lemma_scalar_bytes(text[0]);
    let k = if i < head.len() {
        assert(encode_utf8(text)[i] == head[i]);
        0int
    } else {
        assert(encode_utf8(text)[i] == encode_utf8(rest)[i - head.len()]);
        let k = lemma_zero_byte(rest, i - head.len());
        assert(text.take(k + 1).drop_first() =~= rest.take(k));
        assert(text.take(k + 2).drop_first() =~= rest.take(k + 1));
        k + 1
    };
    if k == 0 {
        assert(text.take(0) =~= Seq::empty());
        assert(text.take(1).drop_first() =~= Seq::empty());
        assert(encode_utf8(text.take(1).drop_first()).len() == 0);
    }
    k
}

/// The text in front of the first NUL has none, and a text without one is all
/// in front of it.
pub proof fn lemma_before_nul(text: Seq<char>)
    ensures
        no_nul(before_nul(text)),
        no_nul(text) ==> before_nul(text) == text,
        before_nul(text).len() <= text.len(),
        text.take(before_nul(text).len() as int) == before_nul(text),
        before_nul(text).len() < text.len() ==> text[before_nul(text).len() as int] == '\0',
    decreases text.len(),
{
    let front = before_nul(text);
    if text.len() == 0 || text[0] == '\0' {
        assert(text.take(0) =~= Seq::empty());
        if text.len() == 0 {
            assert(text =~= Seq::empty());
        }
    } else {
        let rest = text.drop_first();
        lemma_before_nul(rest);
        let more = before_nul(rest);
        assert(front =~= seq![text[0]] + more);
        assert forall|i: int| 0 <= i < front.len() implies #[trigger] front[i] != '\0' by {
            if i > 0 {
                assert(front[i] == more[i - 1]);
            }
        }
        if no_nul(text) {
            assert forall|i: int| 0 <= i < rest.len() implies #[trigger] rest[i] != '\0' by {
                assert(rest[i] == text[i + 1]);
            }
            assert(front =~= text);
        }
        assert(text.take(front.len() as int) =~= seq![text[0]] + rest.take(more.len() as int));
    }
}

/// Whether two texts are the same.
pub fn str_eq(a: &str, b: &str) -> (same: bool)
    ensures
        same == (a@ == b@),
{
    let x: &[u8] = a.as_bytes();
    let y: &[u8] = b.as_bytes();
    if x.len() != y.len() {
        return false;
    }
    let mut i: usize = 0;
    while i < x.len()
        invariant
            i <= x@.len(),
            x@.len() == y@.len(),
            x@ == encode_utf8(a@),
            y@ == encode_utf8(b@),
            forall|k: int| 0 <= k < i ==> x@[k] == y@[k],
        decreases x@.len() - i,
    {
        if x[i] != y[i] {
            return false;
        }
        i = i + 1;
    }
    proof {
        assert(x@ =~= y@);
        lemma_encode_injective(a@, b@);
    }
    true
}

/// The character of the hexadecimal digit `d`; decimal digits are the first ten.
pub open spec fn digit_char(d: int) -> char {
    if d == 0 {
        '0'
    } else if d == 1 {
        '1'
    } else if d == 2 {
        '2'
    } else if d == 3 {
        '3'
    } else if d == 4 {
        '4'
    } else if d == 5 {
        '5'
    } else if d == 6 {
        '6'
    } else if d == 7 {
        '7'
    } else if d == 8 {
        '8'
    } else if d == 9 {
        '9'
    } else if d == 10 {
        'a'
    } else if d == 11 {
        'b'
    } else if d == 12 {
        'c'
    } else if d == 13 {
        'd'
    } else if d == 14 {
        'e'
    } else {
        'f'
    }
}

/// The digit that a character stands for in base `radix`; letters of either
/// case count from ten.
pub open spec fn char_digit(c: char, radix: int) -> Option<int> {
    let v = c as int;
    let d = if 48 <= v <= 57 {
        v - 48
    } else if 97 <= v <= 102 {
        v - 87
    } else if 65 <= v <= 70 {
        v - 55
    } else {
        16
    };
    if d < radix {
        Some(d)
    } else {
        None
    }
}

/// `v` in base `radix`, without leading zeros.
pub open spec fn numeral(v: nat, radix: nat) -> Seq<char>
    decreases v,
{
    if radix < 2 || v < radix {
        seq![digit_char(v as int)]
    } else {
        proof {
            assert(v / radix < v) by (nonlinear_arith)
                requires
                    v >= radix,
                    radix >= 2,
            ;
        }
        numeral(v / radix, radix).push(digit_char((v % radix) as int))
    }
}

/// `text`, with zeros in front up to `width` characters.
pub open spec fn zero_padded(text: Seq<char>, width: nat) -> Seq<char> {
    if text.len() < width {
        Seq::new((width - text.len()) as nat, |i: int| '0') + text
    } else {
        text
    }
}

pub(crate) fn digit_str(d: u64) -> (s: &'static str)
    requires
        d < 16,
    ensures
        s@ == seq![digit_char(d as int)],
{
    proof {
        reveal_strlit("0");
        reveal_strlit("1");
        reveal_strlit("2");
        reveal_strlit("3");
        reveal_strlit("4");
        reveal_strlit("5");
        reveal_strlit("6");
        reveal_strlit("7");
        reveal_strlit("8");
        reveal_strlit("9");
        reveal_strlit("a");
        reveal_strlit("b");
        reveal_strlit("c");
        reveal_strlit("d");
        reveal_strlit("e");
        reveal_strlit("f");
    }
    let s: &'static str = match d {
        0 => "0",
        1 => "1",
        2 => "2",
        3 => "3",
        4 => "4",
        5 => "5",
        6 => "6",
        7 => "7",
        8 => "8",
        9 => "9",
        10 => "a",
        11 => "b",
        12 => "c",
        13 => "d",
        14 => "e",
        _ => "f",
    };
    assert(s@ =~= seq![digit_char(d as int)]);
    s
}

fn numeral_string(v: u64, radix: u64) -> (s: String)
    requires
        2 <= radix <= 16,
    ensures
        s@ == numeral(v as nat, radix as nat),
    decreases v,
{
    if v < radix {
        let mut s = String::new();
        s.append(digit_str(v));
        assert(s@ =~= numeral(v as nat, radix as nat));
        s
    } else {
        assert(v / radix < v) by (nonlinear_arith)
            requires
                v >= radix,
                radix >= 2,
        ;
        let mut s = numeral_string(v / radix, radix);
        s.append(digit_str(v % radix));
        assert(s@ =~= numeral(v as nat, radix as nat));
        s
    }
}

/// `v` in decimal.
pub fn decimal(v: u64) -> (s: String)
    ensures
        s@ == numeral(v as nat, 10),
{
    numeral_string(v, 10)
}

/// `v` in lower-case hexadecimal.
pub fn hexadecimal(v: u64) -> (s: String)
    ensures
        s@ == numeral(v as nat, 16),
{
    numeral_string(v, 16)
}

/// `text` with zeros in front up to `width` characters, for ASCII texts.
pub fn pad_zeros(text: String, width: usize) -> (s: String)
    ensures
        s@ == zero_padded(text@, width as nat),
{
    let have: usize = text.as_str().unicode_len();
    if have >= width {
        return text;
    }
    proof {
        reveal_strlit("0");
    }
    let mut s = String::new();
    let mut i: usize = have;
    while i < width
        invariant
            have == text@.len(),
            have <= i <= width,
            s@ =~= Seq::new((i - have) as nat, |k: int| '0'),
            "0"@ =~= seq!['0'],
        decreases width - i,
    {
        s.append("0");
        i = i + 1;
    }
    s.append(text.as_str());
    s
}

/// The characters of `text`.
pub fn to_chars(text: &str) -> (chars: Vec<char>)
    ensures
        chars@ == text@,
{
    let mut chars: Vec<char> = Vec::new();
    for c in it: text.chars()
        invariant
            chars@.len() == it.index(),
            forall|i: int| 0 <= i < chars@.len() ==> chars@[i] == it.seq()[i],
            it.seq() == text@,
    {
        chars.push(c);
    }
    assert(chars@ =~= text@);
    chars
}

} // verus!
