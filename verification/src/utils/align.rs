//! Alignment of offsets and sizes.

use vstd::arithmetic::power2::is_pow2;
use vstd::prelude::*;

verus! {

/// The smallest multiple of `alignment` that is not below `value`.
pub open spec fn aligned(value: int, alignment: int) -> int {
    (value + alignment - 1) / alignment * alignment
}

/// [`aligned`] is a multiple of the alignment, at or less than one alignment
/// above the value, and keeps multiples.
pub proof fn lemma_aligned(value: int, alignment: int)
    requires
        alignment > 0,
        value >= 0,
    ensures
        aligned(value, alignment) % alignment == 0,
        value <= aligned(value, alignment) < value + alignment,
        value % alignment == 0 ==> aligned(value, alignment) == value,
        value % alignment != 0 ==> aligned(value, alignment) == value + alignment - value
            % alignment,
{
    let x = value + alignment - 1;
    let q = x / alignment;
    vstd::arithmetic::div_mod::lemma_fundamental_div_mod(x, alignment);
    vstd::arithmetic::div_mod::lemma_mod_multiples_basic(q, alignment);
    assert(alignment * q == q * alignment) by (nonlinear_arith);
    let v = value / alignment;
    vstd::arithmetic::div_mod::lemma_fundamental_div_mod(value, alignment);
    assert(alignment * v == v * alignment) by (nonlinear_arith);
    if value % alignment == 0 {
        assert(q == v) by (nonlinear_arith)
            requires
                q * alignment <= x,
                x < q * alignment + alignment,
                x == v * alignment + alignment - 1,
                alignment > 0,
        ;
    } else {
        assert(q == v + 1) by (nonlinear_arith)
            requires
                q * alignment <= x,
                x < q * alignment + alignment,
                x == v * alignment + value % alignment + alignment - 1,
                0 < value % alignment < alignment,
                alignment > 0,
        ;
        assert((v + 1) * alignment == v * alignment + alignment) by (nonlinear_arith);
    }
}

/// Moving by a multiple of the alignment moves the aligned value with it.
pub proof fn lemma_aligned_shift(base: int, value: int, alignment: int)
    requires
        alignment > 0,
        base >= 0,
        value >= 0,
        base % alignment == 0,
    ensures
        aligned(base + value, alignment) == base + aligned(value, alignment),
{
    let b = base / alignment;
    vstd::arithmetic::div_mod::lemma_fundamental_div_mod(base, alignment);
    assert(base == alignment * b);
    vstd::arithmetic::div_mod::lemma_hoist_over_denominator(
        value + alignment - 1,
        b,
        alignment as nat,
    );
    let q = (value + alignment - 1) / alignment;
    assert(value + alignment - 1 + b * alignment == base + value + alignment - 1)
        by (nonlinear_arith)
        requires
            base == alignment * b,
    ;
    assert((q + b) * alignment == q * alignment + base) by (nonlinear_arith)
        requires
            base == alignment * b,
    ;
}

/// Whether `value` is a power of two.
pub fn is_power_of_two(value: u16) -> (yes: bool)
    ensures
        yes == is_pow2(value as int),
{
    reveal(is_pow2);
    if value == 0 {
        return false;
    }
    let mut rest: u16 = value;
    while rest % 2 == 0
        invariant
            rest > 0,
            is_pow2(value as int) == is_pow2(rest as int),
        decreases rest,
    {
        reveal(is_pow2);
        rest = rest / 2;
    }
    rest == 1
}

/// The aligned value; `None` where rounding up leaves the range.
pub fn round_up(value: u64, alignment: u64) -> (r: Option<u64>)
    requires
        alignment > 0,
    ensures
        match r {
            Some(v) => value + alignment - 1 <= u64::MAX && v == aligned(
                value as int,
                alignment as int,
            ),
            None => value + alignment - 1 > u64::MAX,
        },
{
    let rounded: u64 = match value.checked_add(alignment - 1) {
        Some(v) => v,
        None => {
            return None;
        },
    };
    proof {
        let (x, a) = (rounded as int, alignment as int);
        vstd::arithmetic::div_mod::lemma_fundamental_div_mod(x, a);
        assert(a * (x / a) == x / a * a) by (nonlinear_arith);
    }
    Some(rounded - rounded % alignment)
}

/// The aligned value; without an alignment, the value itself.
pub open spec fn padded_size(value: int, alignment: int) -> int {
    if alignment <= 0 {
        value
    } else {
        aligned(value, alignment)
    }
}

/// A padded size is at least the size.
pub proof fn lemma_padded(value: int, alignment: int)
    requires
        value >= 0,
    ensures
        value <= padded_size(value, alignment),
{
    if alignment > 0 {
        lemma_aligned(value, alignment);
    }
}

/// The aligned value; without an alignment, the value itself. `None` where it
/// leaves the range.
pub fn pad_up(value: u64, alignment: u64) -> (r: Option<u64>)
    ensures
        match r {
            Some(v) => v == padded_size(value as int, alignment as int),
            None => padded_size(value as int, alignment as int) > u64::MAX,
        },
{
    if alignment == 0 {
        return Some(value);
    }
    proof {
        lemma_aligned(value as int, alignment as int);
    }
    let remainder: u64 = value % alignment;
    if remainder == 0 {
        Some(value)
    } else {
        value.checked_add(alignment - remainder)
    }
}

} // verus!
