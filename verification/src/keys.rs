//! Order keys for arrival costs.
//!
//! A cost is handed over as the 64-bit pattern of a binary64 number: a sign
//! bit, then eleven exponent bits, then fifty-two fraction bits. For every
//! pattern that is not a NaN, the number's order is the order of its
//! sign-magnitude reading (`signed_magnitude`): the magnitude bits read as
//! an integer, negated when the sign bit is set. `cost_key` turns a pattern
//! into a key that compares exactly as that reading does, so keys compare as
//! the costs they stand for; +∞ becomes `UNREACHED`, and −0 the key of +0.
use vstd::prelude::*;
use crate::solver::UNREACHED;

verus! {

/// The sign bit.
pub const SIGN_BIT: u64 = 0x8000_0000_0000_0000u64;

/// The exponent bits.
pub const EXPONENT_BITS: u64 = 0x7ff0_0000_0000_0000u64;

/// The fraction bits.
pub const FRACTION_BITS: u64 = 0x000f_ffff_ffff_ffffu64;

/// The pattern of +∞.
pub const INFINITY_BITS: u64 = 0x7ff0_0000_0000_0000u64;

/// The pattern is a NaN: all exponent bits set and some fraction bit set.
pub open spec fn is_nan_bits(b: u64) -> bool {
    (b & EXPONENT_BITS) == EXPONENT_BITS && (b & FRACTION_BITS) != 0
}

/// The sign-magnitude reading of a pattern.
pub open spec fn signed_magnitude(b: u64) -> int {
    if b < SIGN_BIT {
        b as int
    } else {
        -((b - SIGN_BIT) as int)
    }
}

/// The key of a pattern.
pub open spec fn key_of_bits(b: u64) -> u64 {
    if b == INFINITY_BITS {
        UNREACHED
    } else if b < SIGN_BIT {
        (b + SIGN_BIT) as u64
    } else if b == SIGN_BIT {
        SIGN_BIT
    } else {
        (UNREACHED - b) as u64
    }
}

/// Facts about the bit layout: a pattern below the sign bit has no sign
/// set, and a pattern that is not a NaN has a magnitude no larger than +∞.
proof fn lemma_bits_layout(b: u64)
    ensures
        b < SIGN_BIT ==> (b | SIGN_BIT) == b + SIGN_BIT,
        b >= SIGN_BIT ==> (b & 0x7fff_ffff_ffff_ffffu64) == b - SIGN_BIT,
        !b == 0xffff_ffff_ffff_ffffu64 - b,
        !is_nan_bits(b) ==> (b < SIGN_BIT ==> b <= INFINITY_BITS),
        !is_nan_bits(b) ==> (b >= SIGN_BIT ==> b - SIGN_BIT <= INFINITY_BITS),
{
    assert(b < 0x8000_0000_0000_0000u64 ==> (b | 0x8000_0000_0000_0000u64) == b
        + 0x8000_0000_0000_0000u64) by (bit_vector);
    assert(b >= 0x8000_0000_0000_0000u64 ==> (b & 0x7fff_ffff_ffff_ffffu64) == b
        - 0x8000_0000_0000_0000u64) by (bit_vector);
    assert(!b == 0xffff_ffff_ffff_ffffu64 - b) by (bit_vector);
    assert(!((b & 0x7ff0_0000_0000_0000u64) == 0x7ff0_0000_0000_0000u64 && (b
        & 0x000f_ffff_ffff_ffffu64) != 0) ==> (b < 0x8000_0000_0000_0000u64 ==> b
        <= 0x7ff0_0000_0000_0000u64)) by (bit_vector);
    assert(!((b & 0x7ff0_0000_0000_0000u64) == 0x7ff0_0000_0000_0000u64 && (b
        & 0x000f_ffff_ffff_ffffu64) != 0) ==> (b >= 0x8000_0000_0000_0000u64 ==> b
        - 0x8000_0000_0000_0000u64 <= 0x7ff0_0000_0000_0000u64)) by (bit_vector);
}

/// Keys compare exactly as the sign-magnitude readings of the patterns:
/// equal readings (+0 and −0 among them) give equal keys, and a smaller
/// reading gives a smaller key.
pub proof fn lemma_key_orders_as_value(a: u64, b: u64)
    requires
        !is_nan_bits(a),
        !is_nan_bits(b),
    ensures
        (key_of_bits(a) < key_of_bits(b)) <==> (signed_magnitude(a) < signed_magnitude(b)),
        (key_of_bits(a) == key_of_bits(b)) <==> (signed_magnitude(a) == signed_magnitude(b)),
{
    lemma_bits_layout(a);
    lemma_bits_layout(b);
}

/// The key of a cost given by its pattern, which must not be a NaN.
pub fn cost_key(bits: u64) -> (k: u64)
    requires
        !is_nan_bits(bits),
    ensures
        k == key_of_bits(bits),
        bits != INFINITY_BITS ==> k < UNREACHED,
{
    proof {
        lemma_bits_layout(bits);
    }
    if bits == INFINITY_BITS {
        UNREACHED
    } else if bits < SIGN_BIT {
        bits | SIGN_BIT
    } else if bits == SIGN_BIT {
        SIGN_BIT
    } else {
        !bits
    }
}

/// The pattern a key stands for: `cost_key` undone, with −0 read back as +0.
pub fn key_bits(key: u64) -> (b: u64)
    ensures
        forall|c: u64|
            !is_nan_bits(c) && key == #[trigger] key_of_bits(c) ==> b == (if c == SIGN_BIT {
                0u64
            } else {
                c
            }),
{
    let b = if key == UNREACHED {
        INFINITY_BITS
    } else if key >= SIGN_BIT {
        key & 0x7fff_ffff_ffff_ffffu64
    } else {
        !key
    };
    proof {
        lemma_bits_layout(key);
        assert forall|c: u64|
            !is_nan_bits(c) && key == #[trigger] key_of_bits(c) implies b == (if c == SIGN_BIT {
                0u64
            } else {
                c
            }) by {
            lemma_bits_layout(c);
        }
    }
    b
}

} // verus!
