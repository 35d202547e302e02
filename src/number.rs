use vstd::prelude::*;

verus! {

/// Whether the 64-bit pattern `b` encodes a double-precision not-a-number.
pub open spec fn is_nan_bits(b: u64) -> bool {
    (b >> 52u64) & 0x7ffu64 == 0x7ffu64 && b & 0xf_ffff_ffff_ffffu64 != 0
}

/// Whether `b` encodes positive or negative zero.
pub open spec fn is_zero_bits(b: u64) -> bool {
    b & 0x7fff_ffff_ffff_ffffu64 == 0
}

/// IEEE-754 equality of two doubles given by their bit patterns: no not-a-number
/// equals anything, the two zeros are equal, and otherwise the patterns must agree.
pub open spec fn num_eq(a: u64, b: u64) -> bool {
    !is_nan_bits(a) && !is_nan_bits(b) && (a == b || (is_zero_bits(a) && is_zero_bits(b)))
}

/// A double-precision number, held as its IEEE-754 bit pattern.
#[derive(Debug, Clone, Copy)]
pub struct Number {
    pub bits: u64,
}

impl Number {
    /// The bit pattern.
    pub open spec fn view(&self) -> u64 {
        self.bits
    }

    /// The number with this bit pattern.
    pub fn from_bits(bits: u64) -> (r: Number)
        ensures
            r.bits == bits,
    {
        Number { bits }
    }

    /// The bit pattern.
    pub fn to_bits(&self) -> (r: u64)
        ensures
            r == self.bits,
    {
        self.bits
    }

    /// Whether this is a not-a-number.
    pub fn is_nan(&self) -> (r: bool)
        ensures
            r == is_nan_bits(self.bits),
    {
        (self.bits >> 52u64) & 0x7ffu64 == 0x7ffu64 && self.bits & 0xf_ffff_ffff_ffffu64 != 0
    }

    /// IEEE-754 equality.
    pub fn equals(&self, other: &Number) -> (r: bool)
        ensures
            r == num_eq(self.bits, other.bits),
    {
        !self.is_nan() && !other.is_nan() && (self.bits == other.bits || (self.bits
            & 0x7fff_ffff_ffff_ffffu64 == 0 && other.bits & 0x7fff_ffff_ffff_ffffu64 == 0))
    }
}

} // verus!
