use rand::TryRngCore;
use vstd::prelude::*;

verus! {

/// Sign and exponent bits of a single-precision float in `[1, 2)`.
pub const SIGN_EXP: u32 = 0x3F80_0000;

/// A random `u32` from the operating system's generator, through `rand`
/// (`rand::rngs::OsRng.try_next_u32()`), or `None` when the operating system
/// cannot supply one. The value depends on the generator, so nothing is
/// promised of it.
#[verifier::external_body]
pub fn u32() -> Option<u32> {
    rand::rngs::OsRng.try_next_u32().ok()
}

/// The bit pattern of a single-precision float in `[1, 2)` whose 23
/// mantissa bits are the top 23 bits of `random`: sign 0, exponent 127.
pub fn unit_bits(random: u32) -> (bits: u32)
    ensures
        bits == (random >> 9u32) | SIGN_EXP,
        bits >> 23u32 == 127,
        bits & 0x7F_FFFF == random >> 9u32,
        SIGN_EXP <= bits < 0x4000_0000,
{
    let bits: u32 = (random >> 9) | SIGN_EXP;
    assert(bits >> 23u32 == 127 && bits & 0x7F_FFFF == random >> 9u32 && SIGN_EXP <= bits < 0x4000_0000)
        by (bit_vector)
        requires
            bits == (random >> 9u32) | 0x3F80_0000u32,
    ;
    bits
}

/// Every float in `[1, 2)` comes from some draw: the pattern `b` with
/// exponent 127 is what the draw holding its mantissa in the top 23 bits
/// gives.
pub proof fn lemma_unit_bits_reaches(b: u32)
    requires
        b >> 23u32 == 127,
    ensures
        ((((b & 0x7F_FFFFu32) << 9u32) >> 9u32) | SIGN_EXP) == b,
{
    assert(((((b & 0x7F_FFFFu32) << 9u32) >> 9u32) | 0x3F80_0000u32) == b) by (bit_vector)
        requires
            b >> 23u32 == 127u32,
    ;
}

/// A larger draw never gives a smaller float, and draws that differ in their
/// top 23 bits give different floats.
pub proof fn lemma_unit_bits_ordered(x: u32, y: u32)
    ensures
        x <= y ==> ((x >> 9u32) | SIGN_EXP) <= ((y >> 9u32) | SIGN_EXP),
        (x >> 9u32) != (y >> 9u32) ==> ((x >> 9u32) | SIGN_EXP) != ((y >> 9u32) | SIGN_EXP),
{
    assert(x <= y ==> ((x >> 9u32) | 0x3F80_0000u32) <= ((y >> 9u32) | 0x3F80_0000u32)) by (bit_vector);
    assert((x >> 9u32) != (y >> 9u32) ==> ((x >> 9u32) | 0x3F80_0000u32) != ((y >> 9u32) | 0x3F80_0000u32))
        by (bit_vector);
}

/// The bit pattern of a random float in `[1, 2)`, drawn from `u32`; taking
/// one off the float gives a random number in `[0, 1)`. `None` when no random
/// number could be drawn.
pub fn unit_float_bits() -> (bits: Option<u32>)
    ensures
        bits matches Some(b) ==> b >> 23u32 == 127 && SIGN_EXP <= b < 0x4000_0000,
{
    match u32() {
        Some(random) => Some(unit_bits(random)),
        None => None,
    }
}

} // verus!
