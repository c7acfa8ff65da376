use vstd::prelude::*;

verus! {

/// Identifier of a node.
pub type NodeId = u32;

/// A 64-bit IEEE-754 floating-point value, held as its bit pattern so that
/// it is stored and read back exactly.
#[derive(Clone, Copy, Debug, PartialEq, Eq, Structural)]
pub struct Scalar {
    pub bits: u64,
}

/// The weight of an edge or a node.
pub type Weight = Scalar;

/// The position of a node: a single scalar.
pub type Position = Scalar;

/// The integer cost of a weight with bit pattern `bits`: its value truncated
/// toward zero and saturated into `u32`. Negative values and NaN give 0,
/// values of at least 2^32 (and +infinity) give `u32::MAX`.
pub open spec fn cost_of_bits(bits: u64) -> u32 {
    let exp = (bits >> 52u64) & 0x7ffu64;
    let mant = bits & 0xf_ffff_ffff_ffffu64;
    if (bits >> 63u64) == 1 || (exp == 0x7ffu64 && mant != 0) || exp < 1023 {
        0
    } else if exp >= 1055 {
        u32::MAX
    } else {
        ((mant | 0x10_0000_0000_0000u64) >> ((1075 - exp) as u64)) as u32
    }
}

/// Why a builder could not build its value.
#[derive(Debug)]
pub enum BuilderError {
    /// A required field was not set.
    UninitializedField { field: String },
}

impl Scalar {
    /// The value 0.0.
    pub fn zero() -> (r: Scalar)
        ensures
            r.bits == 0,
    {
        Scalar { bits: 0 }
    }

    /// The integer cost that path searches charge for this weight.
    pub fn cost(self) -> (r: u32)
        ensures
            r == cost_of_bits(self.bits),
    {
        let exp: u64 = (self.bits >> 52u64) & 0x7ffu64;
        let mant: u64 = self.bits & 0xf_ffff_ffff_ffffu64;
        if (self.bits >> 63u64) == 1 || (exp == 0x7ffu64 && mant != 0) || exp < 1023 {
            0
        } else if exp >= 1055 {
            u32::MAX
        } else {
            ((mant | 0x10_0000_0000_0000u64) >> (1075 - exp)) as u32
        }
    }
}

} // verus!
