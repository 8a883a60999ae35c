//! Numerical type tags for column values.

use vstd::prelude::*;

verus! {

/// Error for a malformed on-disk tag.
#[derive(Debug, PartialEq, Eq, Structural)]
pub struct InvalidData;

/// The type of a numerical column, as stored in a one-byte code.
#[derive(Clone, Copy, Debug, Hash, PartialEq, Eq, Structural)]
pub enum NumericalType {
    I64,
    U64,
    F64,
    U128,
}

impl Default for NumericalType {
    fn default() -> (r: Self)
        ensures
            r == NumericalType::I64,
    {
        NumericalType::I64
    }
}

impl NumericalType {
    /// The one-byte code under which this tag is serialized.
    pub fn to_code(self) -> (code: u8)
        ensures
            code == self.as_code(),
            code < 4,
    {
        match self {
            NumericalType::I64 => 0,
            NumericalType::U64 => 1,
            NumericalType::F64 => 2,
            NumericalType::U128 => 3,
        }
    }

    /// The code of each tag, as a spec-level map.
    pub open spec fn as_code(self) -> u8 {
        match self {
            NumericalType::I64 => 0,
            NumericalType::U64 => 1,
            NumericalType::F64 => 2,
            NumericalType::U128 => 3,
        }
    }

    /// Decodes a one-byte code; exactly the codes 0..4 are valid,
    /// and decoding inverts `to_code`.
    pub fn try_from_code(code: u8) -> (r: Result<NumericalType, InvalidData>)
        ensures
            code < 4 ==> r is Ok && r->Ok_0.as_code() == code,
            code >= 4 ==> r is Err,
    {
        match code {
            0 => Ok(NumericalType::I64),
            1 => Ok(NumericalType::U64),
            2 => Ok(NumericalType::F64),
            3 => Ok(NumericalType::U128),
            _ => Err(InvalidData),
        }
    }
}

} // verus!
