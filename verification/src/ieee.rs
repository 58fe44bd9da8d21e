//! Numbers read from IEEE 754 bit patterns.
use vstd::prelude::*;

verus! {

/// Bit pattern of the binary32 infinity.
pub const INFINITY32: u32 = 0x7F80_0000;

/// Bit pattern of the binary32 negative infinity.
pub const NEG_INFINITY32: u32 = 0xFF80_0000;

/// Bit pattern of the binary64 infinity.
pub const INFINITY64: u64 = 0x7FF0_0000_0000_0000;

/// Weight of one step of the binary32 exponent.
pub open spec fn exponent_step() -> int {
    0x80_0000
}

/// The place of a binary32 number in the order of the numbers: its magnitude
/// bits with its sign. The patterns above infinity are no numbers.
pub open spec fn place32(bits: u32) -> Option<i64> {
    if bits <= INFINITY32 {
        Some(bits as i64)
    } else if 0x8000_0000 <= bits <= NEG_INFINITY32 {
        Some((0x8000_0000 - bits) as i64)
    } else {
        None
    }
}

/// The place of a binary64 number in the order of the numbers.
pub open spec fn place64(bits: u64) -> Option<i64> {
    if bits <= INFINITY64 {
        Some(bits as i64)
    } else if 0x8000_0000_0000_0000 <= bits <= 0xFFF0_0000_0000_0000 {
        Some((0x8000_0000_0000_0000 - bits) as i64)
    } else {
        None
    }
}

/// The place of a binary32 number in the order of the numbers.
pub fn rank32(bits: u32) -> (place: Option<i64>)
    ensures
        place == place32(bits),
{
    if bits <= INFINITY32 {
        Some(bits as i64)
    } else if 0x8000_0000 <= bits && bits <= NEG_INFINITY32 {
        Some(0x8000_0000 - bits as i64)
    } else {
        None
    }
}

/// The place of a binary64 number in the order of the numbers.
pub fn rank64(bits: u64) -> (place: Option<i64>)
    ensures
        place == place64(bits),
{
    if bits <= INFINITY64 {
        Some(bits as i64)
    } else if 0x8000_0000_0000_0000 <= bits && bits <= 0xFFF0_0000_0000_0000 {
        Some(-((bits - 0x8000_0000_0000_0000) as i64))
    } else {
        None
    }
}

/// The bit pattern of 2 to the power `exponent`, where that is a normal number:
/// the biased exponent in its place, cut to 32 bits.
pub open spec fn power_of_two_bits(exponent: i32) -> u32 {
    (((exponent + 127) * exponent_step()) % 0x1_0000_0000) as u32
}

/// Assembles the bit pattern of 2 to the power `exponent`.
pub fn assemble_power_of_two(exponent: i32) -> (bits: u32)
    ensures
        bits == power_of_two_bits(exponent),
        -126 <= exponent <= 127 ==> bits == (exponent + 127) * exponent_step(),
{
    let biased: i32 = exponent.wrapping_add(127);
    let unsigned: u32 = biased as u32;
    let bits: u32 = unsigned << 23;
    proof {
        assert(unsigned << 23 == (unsigned * 0x80_0000) % 0x1_0000_0000) by (bit_vector);
        assert(unsigned as int % 0x1_0000_0000 == (exponent + 127) % 0x1_0000_0000) by {
            assert(unsigned == (if biased >= 0 {
                biased as int
            } else {
                biased + 0x1_0000_0000
            })) by {
                assert(biased >= 0 ==> biased as u32 == biased) by (bit_vector);
                assert(biased < 0 ==> biased as u32 == biased + 0x1_0000_0000) by (bit_vector);
            }
        }
        vstd::arithmetic::div_mod::lemma_mul_mod_noop(
            unsigned as int,
            exponent_step(),
            0x1_0000_0000,
        );
        vstd::arithmetic::div_mod::lemma_mul_mod_noop(
            exponent + 127,
            exponent_step(),
            0x1_0000_0000,
        );
    }
    bits
}

/// Bit pattern of the square root of 2.
pub const SQRT2: u32 = 0x3FB5_04F3;

/// `mantissa` and `exponent` are the number's parts: the mantissa is in
/// `[sqrt(2)/2, sqrt(2))`, and moving its exponent field by `exponent` gives the
/// number back.
pub open spec fn splits(bits: u32, exponent: i32, mantissa: u32) -> bool {
    &&& mantissa + exponent * exponent_step() == bits
    &&& SQRT2 - exponent_step() <= mantissa < SQRT2
}

/// The exponent and the mantissa of a number.
pub open spec fn parts_of(bits: u32) -> (i32, u32) {
    choose|parts: (i32, u32)| #[trigger] splits(bits, parts.0, parts.1)
}

/// Splits a positive number into a mantissa in `[sqrt(2)/2, sqrt(2))` and a
/// power of two.
pub fn split_exponent(bits: u32) -> (parts: (i32, u32))
    ensures
        splits(bits, parts.0, parts.1),
        parts == parts_of(bits),
{
    let field: u32 = (bits & 0x007F_FFFF) | 0x3F80_0000;
    let above: bool = field >= SQRT2;
    let biased: u32 = bits >> 23;
    proof {
        assert(field == bits % 0x80_0000 + 0x3F80_0000) by (bit_vector)
            requires
                field == (bits & 0x007F_FFFF) | 0x3F80_0000,
        ;
        assert(biased == bits / 0x80_0000) by (bit_vector)
            requires
                biased == bits >> 23,
        ;
        assert(bits == (bits / 0x80_0000) * 0x80_0000 + bits % 0x80_0000);
    }
    let parts: (i32, u32) = if above {
        (biased as i32 - 127 + 1, field - 0x80_0000)
    } else {
        (biased as i32 - 127, field)
    };
    proof {
        assert(splits(bits, parts.0, parts.1));
        let chosen = parts_of(bits);
        law_split_is_unique(bits, parts.0, parts.1, chosen.0, chosen.1);
    }
    parts
}

/// The parts of a number are determined by it.
pub proof fn law_split_is_unique(
    bits: u32,
    exponent: i32,
    mantissa: u32,
    other_exponent: i32,
    other_mantissa: u32,
)
    requires
        splits(bits, exponent, mantissa),
        splits(bits, other_exponent, other_mantissa),
    ensures
        exponent == other_exponent,
        mantissa == other_mantissa,
{
}

} // verus!
