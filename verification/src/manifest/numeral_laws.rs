//! What numerals stand for.

use vstd::arithmetic::power::pow;
use vstd::prelude::*;

use crate::manifest::fields::{digits_value, lemma_digits_prefix, number_in, unsigned};
use crate::manifest::laws::{all_hex, lemma_hex_lacks, lemma_number_in, lemma_numeral};
use crate::utils::text::{char_digit, numeral, zero_padded};

verus! {

/// The decimal digits stand for their distance from `0`, letters of either case
/// for ten more than their distance from `a`, and no other character is a digit.
pub proof fn law_digits_count_from_zero(c: char, radix: int)
    requires
        2 <= radix <= 16,
    ensures
        '0' <= c <= '9' && (c as int - '0' as int) < radix ==> char_digit(c, radix) == Some(
            c as int - '0' as int,
        ),
        'a' <= c <= 'f' && c as int - 'a' as int + 10 < radix ==> char_digit(c, radix) == Some(
            c as int - 'a' as int + 10,
        ),
        'A' <= c <= 'F' && c as int - 'A' as int + 10 < radix ==> char_digit(c, radix) == Some(
            c as int - 'A' as int + 10,
        ),
        char_digit(c, radix) matches Some(d) ==> 0 <= d < radix && ('0' <= c <= '9' || 'a' <= c
            <= 'f' || 'A' <= c <= 'F'),
{
}

/// A single digit stands for itself, and digits in front of others count for as
/// many powers of the base as there are others.
pub proof fn law_digits_in_pieces(a: Seq<char>, b: Seq<char>, radix: int)
    ensures
        digits_value(a + b, radix) == match (digits_value(a, radix), digits_value(b, radix)) {
            (Some(x), Some(y)) => Some(x * pow(radix, b.len()) + y),
            _ => None,
        },
        b.len() == 1 ==> digits_value(b, radix) == char_digit(b[0], radix),
        digits_value(Seq::empty(), radix) == Some(0int),
    decreases b.len(),
{
    reveal(pow);
    if b.len() == 0 {
        assert(a + b =~= a);
    } else {
        let front = b.drop_last();
        law_digits_in_pieces(a, front, radix);
        assert((a + b).drop_last() =~= a + front);
        assert((a + b).last() == b.last());
        match (digits_value(a, radix), digits_value(front, radix)) {
            (Some(x), Some(y)) => {
                let p = pow(radix, front.len());
                assert((x * p + y) * radix == x * (radix * p) + y * radix) by (nonlinear_arith);
            },
            _ => {},
        }
        if b.len() == 1 {
            assert(front =~= Seq::empty());
            assert(0 * radix == 0);
        }
    }
}

/// A numeral has no leading zero unless it is zero, and none longer than the
/// width is padded.
proof fn lemma_no_leading_zero(v: nat, radix: nat)
    requires
        2 <= radix <= 16,
    ensures
        numeral(v, radix).len() > 0,
        v > 0 ==> numeral(v, radix)[0] != '0',
        v == 0 ==> numeral(v, radix).len() == 1,
    decreases v,
{
    if v >= radix {
        assert(0 < v / radix < v) by (nonlinear_arith)
            requires
                v >= radix,
                radix >= 2,
        ;
        lemma_no_leading_zero(v / radix, radix);
        assert(numeral(v, radix)[0] == numeral(v / radix, radix)[0]);
    }
}

/// A number is read back from its numeral. The numeral has zeros in front only
/// where it would be narrower than asked for.
pub proof fn law_numerals_read_back(v: u64, radix: nat, width: nat)
    requires
        2 <= radix <= 16,
    ensures
        ({
            let text = zero_padded(numeral(v as nat, radix), width);
            &&& number_in(text, radix as int, u64::MAX as int) == Some(v as int)
            &&& text.len() >= width
            &&& text.len() > width && v > 0 ==> text[0] != '0'
            &&& text.len() > width && v == 0 ==> text.len() == 1
            &&& all_hex(text)
        }),
{
    lemma_number_in(v, radix, width);
    lemma_no_leading_zero(v as nat, radix);
}

/// A numeral may have a plus sign in front, and is refused where it is empty, is
/// too large or has another character in it.
pub proof fn law_numerals_are_refused(text: Seq<char>, radix: int, limit: int, i: int)
    requires
        2 <= radix <= 16,
        limit >= 0,
    ensures
        text.len() == 0 ==> number_in(text, radix, limit) is None,
        number_in(text, radix, limit) matches Some(v) ==> v <= limit,
        0 <= i < text.len() && !(i == 0 && text.len() > 1 && text[0] == '+') && char_digit(
            text[i],
            radix,
        ) is None ==> number_in(text, radix, limit) is None,
        text.len() > 1 && text[0] == '+' ==> digits_value(unsigned(text), radix) == digits_value(
            text.skip(1),
            radix,
        ),
{
    let digits = unsigned(text);
    if text.len() > 1 && text[0] == '+' {
        assert(digits =~= text.skip(1));
    }
    if 0 <= i < text.len() && !(i == 0 && text.len() > 1 && text[0] == '+') && char_digit(
        text[i],
        radix,
    ) is None {
        let at = i - (text.len() - digits.len());
        assert(digits[at] == text[i]);
        assert(digits.take(at + 1).last() == text[i]);
        assert(digits_value(digits.take(at + 1), radix) is None);
        lemma_digits_prefix(digits, at + 1, radix);
    }
}

/// A numeral without a sign is its digits.
pub proof fn lemma_numeral_number(v: nat, radix: nat, limit: int)
    requires
        2 <= radix <= 16,
        v <= limit,
    ensures
        number_in(numeral(v, radix), radix as int, limit) == Some(v as int),
{
    lemma_numeral(v, radix);
    lemma_hex_lacks(numeral(v, radix));
    assert(numeral(v, radix)[0] != '+');
}

} // verus!
