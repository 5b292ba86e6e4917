//! Real numbers on an integer scale.
//!
//! The library does no arithmetic on real numbers: it stores them, compares
//! them with zero and with each other, and finds them again. A number comes
//! in as the bit pattern of a single-precision float, and is compared by its
//! level: an integer with the sign of the number that is larger exactly
//! where the number is larger. Both zeros have level zero.

use vstd::prelude::*;

verus! {

/// The distance of `v` from zero.
pub open spec fn magnitude(v: int) -> int {
    if v < 0 {
        -v
    } else {
        v
    }
}

/// The bit that holds the sign of a float.
pub const SIGN_BIT: u32 = 0x8000_0000;

/// The level of the float with the bit pattern `bits`: the bits below the
/// sign bit, which grow with the size of the number, with the number's sign.
pub open spec fn level_of(bits: u32) -> int {
    if bits < SIGN_BIT {
        bits as int
    } else {
        -(bits - SIGN_BIT)
    }
}

/// The bit pattern of the float with the given level. The one level below
/// all levels of floats gets the pattern of the lowest of them.
pub open spec fn bits_of(level: i32) -> u32 {
    if level >= 0 {
        level as u32
    } else if level == i32::MIN {
        u32::MAX
    } else {
        (SIGN_BIT - level) as u32
    }
}

/// The level of a float, from its bit pattern.
pub fn level_of_bits(bits: u32) -> (level: i32)
    ensures
        level == level_of(bits),
        level > i32::MIN,
        level >= 0 <==> bits <= SIGN_BIT,
{
    if bits < SIGN_BIT {
        bits as i32
    } else {
        -((bits - SIGN_BIT) as i32)
    }
}

/// The bit pattern of the float with the given level.
pub fn bits_of_level(level: i32) -> (bits: u32)
    ensures
        bits == bits_of(level),
{
    if level >= 0 {
        level as u32
    } else if level == i32::MIN {
        u32::MAX
    } else {
        SIGN_BIT + ((-level) as u32)
    }
}

/// Every bit pattern but that of the negative zero is found again from its
/// level; the negative zero comes back as the positive one.
pub proof fn lemma_bits_of_level_of(bits: u32)
    ensures
        bits != SIGN_BIT ==> bits_of(level_of(bits) as i32) == bits,
        bits == SIGN_BIT ==> bits_of(level_of(bits) as i32) == 0,
{
}

/// Every level of a float is the level of its bit pattern.
pub proof fn lemma_level_of_bits_of(level: i32)
    requires
        level > i32::MIN,
    ensures
        level_of(bits_of(level)) == level,
{
}

/// Among the patterns without the sign bit the larger pattern has the larger
/// level, among those with it the smaller one, and no pattern with the sign
/// bit has a level above that of one without.
pub proof fn lemma_level_order(a: u32, b: u32)
    ensures
        a < SIGN_BIT && b < SIGN_BIT ==> (level_of(a) < level_of(b) <==> a < b),
        a >= SIGN_BIT && b >= SIGN_BIT ==> (level_of(a) < level_of(b) <==> a > b),
        a >= SIGN_BIT && b < SIGN_BIT ==> level_of(a) <= level_of(b),
{
}

/// The bit pattern above which a pattern without the sign bit stands for no
/// number: that of infinity.
pub const INFINITY_BITS: u32 = 0x7f80_0000;

/// The pattern that is taken for every pattern that stands for no number.
pub const NAN_BITS: u32 = 0x7fc0_0000;

/// The pattern by which a float is found again: floats that count as equal
/// have the same one. The two zeros count as equal, and so do all patterns
/// that stand for no number; any other pattern is equal to itself alone.
pub open spec fn canonical(bits: u32) -> u32 {
    let size = if bits >= SIGN_BIT {
        (bits - SIGN_BIT) as u32
    } else {
        bits
    };
    if size > INFINITY_BITS {
        NAN_BITS
    } else if size == 0 {
        0
    } else {
        bits
    }
}

/// The pattern by which a float is found again.
pub fn canonical_bits(bits: u32) -> (r: u32)
    ensures
        r == canonical(bits),
{
    let size = if bits >= SIGN_BIT {
        bits - SIGN_BIT
    } else {
        bits
    };
    if size > INFINITY_BITS {
        NAN_BITS
    } else if size == 0 {
        0
    } else {
        bits
    }
}

/// A canonical pattern is its own canonical pattern.
pub proof fn lemma_canonical_idempotent(bits: u32)
    ensures
        canonical(canonical(bits)) == canonical(bits),
{
}

} // verus!
