//! The types of tensor elements.

use vstd::prelude::*;

verus! {

/// The type of the elements of a tensor.
#[derive(Debug, Clone, Copy, PartialEq, Eq, Hash, Structural)]
pub enum Dtype {
    F32,
    F16,
    Bf16,
    Fp8E4m3,
    /// 4 bits, with a scale for each block.
    NvFp4,
    MxFp4,
    DsFp4,
    Q4_0,
    I32,
}

impl Dtype {
    /// The bits of one element.
    pub open spec fn width(self) -> u32 {
        match self {
            Dtype::F32 | Dtype::I32 => 32,
            Dtype::F16 | Dtype::Bf16 | Dtype::Fp8E4m3 => 16,
            Dtype::NvFp4 | Dtype::MxFp4 | Dtype::DsFp4 | Dtype::Q4_0 => 4,
        }
    }

    /// The bits of one element.
    pub fn bits(self) -> (n: u32)
        ensures
            n == self.width(),
            n == 32 <==> self == Dtype::F32 || self == Dtype::I32,
            n == 16 <==> self == Dtype::F16 || self == Dtype::Bf16 || self == Dtype::Fp8E4m3,
            n == 4 <==> self == Dtype::NvFp4 || self == Dtype::MxFp4 || self == Dtype::DsFp4 || self
                == Dtype::Q4_0,
    {
        match self {
            Dtype::F32 | Dtype::I32 => 32,
            Dtype::F16 | Dtype::Bf16 | Dtype::Fp8E4m3 => 16,
            Dtype::NvFp4 | Dtype::MxFp4 | Dtype::DsFp4 | Dtype::Q4_0 => 4,
        }
    }

    /// The bits that one parameter of an expert takes up with its share of the block
    /// scales, where there are any: 5 for formats with a scale for each block.
    pub open spec fn stored(self) -> u32 {
        match self {
            Dtype::NvFp4 | Dtype::MxFp4 | Dtype::DsFp4 => 5,
            _ => self.width(),
        }
    }

    /// The bits that one parameter of an expert takes up, with its share of the block
    /// scales.
    pub fn bits_per_param(self) -> (n: u32)
        ensures
            n == self.stored(),
            n == 32 <==> self == Dtype::F32 || self == Dtype::I32,
            n == 16 <==> self == Dtype::F16 || self == Dtype::Bf16 || self == Dtype::Fp8E4m3,
            n == 5 <==> self == Dtype::NvFp4 || self == Dtype::MxFp4 || self == Dtype::DsFp4,
            n == 4 <==> self == Dtype::Q4_0,
    {
        match self {
            Dtype::NvFp4 | Dtype::MxFp4 | Dtype::DsFp4 => 5,
            _ => self.bits(),
        }
    }
}

} // verus!
