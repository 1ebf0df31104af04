//! Constants of the format and the pixel types that `BITPIX` names.
use crate::error::{Error, Result};
use vstd::prelude::*;

verus! {

/// Size of one FITS block in bytes.
pub const BLOCK_SIZE: usize = 2880;

/// Size of one header record (keyword card) in bytes.
pub const RECORD_SIZE: usize = 80;

/// Number of records per header block.
pub const RECORDS_PER_BLOCK: usize = 36;

/// BITPIX values per FITS standard.
#[derive(Debug, Clone, Copy, PartialEq, Eq, Structural)]
pub enum Bitpix {
    U8,
    I16,
    I32,
    I64,
    F32,
    F64,
}

impl Bitpix {
    /// The `BITPIX` number of a pixel type.
    pub open spec fn number(self) -> int {
        match self {
            Bitpix::U8 => 8,
            Bitpix::I16 => 16,
            Bitpix::I32 => 32,
            Bitpix::I64 => 64,
            Bitpix::F32 => -32,
            Bitpix::F64 => -64,
        }
    }

    /// Bytes that one value takes: the magnitude of the `BITPIX` number in bits.
    pub open spec fn width(self) -> nat {
        (if self.number() < 0 {
            -self.number() / 8
        } else {
            self.number() / 8
        }) as nat
    }

    /// The pixel type of a `BITPIX` number.
    pub open spec fn of(number: int) -> Option<Bitpix> {
        if number == 8 {
            Some(Bitpix::U8)
        } else if number == 16 {
            Some(Bitpix::I16)
        } else if number == 32 {
            Some(Bitpix::I32)
        } else if number == 64 {
            Some(Bitpix::I64)
        } else if number == -32 {
            Some(Bitpix::F32)
        } else if number == -64 {
            Some(Bitpix::F64)
        } else {
            None
        }
    }

    pub fn to_i64(self) -> (r: i64)
        ensures
            r == self.number(),
    {
        match self {
            Bitpix::U8 => 8,
            Bitpix::I16 => 16,
            Bitpix::I32 => 32,
            Bitpix::I64 => 64,
            Bitpix::F32 => -32,
            Bitpix::F64 => -64,
        }
    }

    pub fn from_i64(val: i64) -> (r: Result<Self>)
        ensures
            match r {
                Ok(b) => Bitpix::of(val as int) == Some(b),
                Err(e) => e == Error::UnsupportedBitpix(val) && Bitpix::of(val as int) is None,
            },
    {
        match val {
            8 => Ok(Bitpix::U8),
            16 => Ok(Bitpix::I16),
            32 => Ok(Bitpix::I32),
            64 => Ok(Bitpix::I64),
            -32 => Ok(Bitpix::F32),
            -64 => Ok(Bitpix::F64),
            _ => Err(Error::UnsupportedBitpix(val)),
        }
    }

    pub fn bytes_per_value(self) -> (r: usize)
        ensures
            r == self.width(),
            r == 1 || r == 2 || r == 4 || r == 8,
    {
        match self {
            Bitpix::U8 => 1,
            Bitpix::I16 => 2,
            Bitpix::I32 => 4,
            Bitpix::I64 => 8,
            Bitpix::F32 => 4,
            Bitpix::F64 => 8,
        }
    }
}

/// The pixel type of a number is the one that has this number, and no number has
/// two.
pub proof fn bitpix_of_number(b: Bitpix, number: int)
    ensures
        Bitpix::of(b.number()) == Some(b),
        Bitpix::of(number) == Some(b) <==> b.number() == number,
{
}

} // verus!
