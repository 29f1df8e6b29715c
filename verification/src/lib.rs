//! Encoders for SCPI / IEEE 488.2 program data.
//!
//! Each supported value kind is turned into the exact byte sequence that an
//! instrument command argument must contain: discrete mnemonics, quoted
//! strings, arbitrary-length blocks, booleans, integers, decimal numerics in
//! scientific notation, and the protocol sentinels (`DEF`, `MIN`/`MAX`,
//! `UP`/`DOWN`). Values are encoded by the [`Parameter`] capability, which
//! writes the wire bytes into a caller-supplied byte buffer.

use vstd::prelude::*;

pub mod laws;
pub mod numeric;
pub mod param;
pub mod wire;

pub use crate::numeric::FiniteFloat;
pub use crate::numeric::ScpiFloat;
pub use crate::param::Parameter;

verus! {

/// Discrete SCPI parameter: a fixed protocol mnemonic, written verbatim.
///
/// Reference: IEEE 488.2
#[derive(Copy, Clone, Debug, Eq, PartialEq)]
pub struct Discrete(pub &'static str);

/// An arbitrary block of bytes, written with a `#`-prefixed length field.
///
/// Reference: IEEE 488.2
#[derive(Copy, Clone, Debug, Eq, PartialEq)]
pub struct Block<'a>(pub &'a [u8]);

/// Special parameter that allows the instrument to select a numeric value.
///
/// Reference: SCPI 1999.0: 7.2.1.1 - DEFault
#[derive(Copy, Clone, Debug, Eq, PartialEq, Structural)]
pub struct DefaultValue;

/// Special parameter that refers to a numeric limit value.
///
/// Reference: SCPI 1999.0: 7.2.1.2 - MINimum|MAXimum
#[derive(Copy, Clone, Debug, Eq, PartialEq, Structural)]
pub enum Limit {
    Min,
    Max,
}

/// Special parameter that refers to a numeric step.
///
/// Reference: SCPI 1999.0: 7.2.1.3 - UP|DOWN
#[derive(Copy, Clone, Debug, Eq, PartialEq, Structural)]
pub enum Step {
    Up,
    Down,
}

/// Trait for types that encode as SCPI parameters through their canonical
/// decimal representation: an optional leading minus sign and the digits of
/// the magnitude, with no leading zeros, no `+`, and no grouping.
///
/// Implemented for every supported signed and unsigned integer width; each
/// implementation reports the sign and magnitude of the value, and the
/// [`Parameter`] capability renders them as decimal text.
pub trait ScpiDisplay: Copy {
    /// The numeric value, as a mathematical integer.
    spec fn scpi_value(self) -> int;

    /// Whether the value is negative.
    fn scpi_negative(self) -> (r: bool)
        ensures
            r == (self.scpi_value() < 0),
    ;

    /// The magnitude of the value.
    fn scpi_magnitude(self) -> (r: u128)
        ensures
            r as int == if self.scpi_value() < 0 {
                -self.scpi_value()
            } else {
                self.scpi_value()
            },
    ;
}

impl ScpiDisplay for i8 {
    open spec fn scpi_value(self) -> int {
        self as int
    }

    fn scpi_negative(self) -> bool {
        self < 0
    }

    fn scpi_magnitude(self) -> u128 {
        if self < 0 {
            (-(self as i128)) as u128
        } else {
            self as u128
        }
    }
}

impl ScpiDisplay for i16 {
    open spec fn scpi_value(self) -> int {
        self as int
    }

    fn scpi_negative(self) -> bool {
        self < 0
    }

    fn scpi_magnitude(self) -> u128 {
        if self < 0 {
            (-(self as i128)) as u128
        } else {
            self as u128
        }
    }
}

impl ScpiDisplay for i32 {
    open spec fn scpi_value(self) -> int {
        self as int
    }

    fn scpi_negative(self) -> bool {
        self < 0
    }

    fn scpi_magnitude(self) -> u128 {
        if self < 0 {
            (-(self as i128)) as u128
        } else {
            self as u128
        }
    }
}

impl ScpiDisplay for i64 {
    open spec fn scpi_value(self) -> int {
        self as int
    }

    fn scpi_negative(self) -> bool {
        self < 0
    }

    fn scpi_magnitude(self) -> u128 {
        if self < 0 {
            (-(self as i128)) as u128
        } else {
            self as u128
        }
    }
}

impl ScpiDisplay for isize {
    open spec fn scpi_value(self) -> int {
        self as int
    }

    fn scpi_negative(self) -> bool {
        self < 0
    }

    fn scpi_magnitude(self) -> u128 {
        if self < 0 {
            (-(self as i128)) as u128
        } else {
            self as u128
        }
    }
}

impl ScpiDisplay for u8 {
    open spec fn scpi_value(self) -> int {
        self as int
    }

    fn scpi_negative(self) -> bool {
        false
    }

    fn scpi_magnitude(self) -> u128 {
        self as u128
    }
}

impl ScpiDisplay for u16 {
    open spec fn scpi_value(self) -> int {
        self as int
    }

    fn scpi_negative(self) -> bool {
        false
    }

    fn scpi_magnitude(self) -> u128 {
        self as u128
    }
}

impl ScpiDisplay for u32 {
    open spec fn scpi_value(self) -> int {
        self as int
    }

    fn scpi_negative(self) -> bool {
        false
    }

    fn scpi_magnitude(self) -> u128 {
        self as u128
    }
}

impl ScpiDisplay for u64 {
    open spec fn scpi_value(self) -> int {
        self as int
    }

    fn scpi_negative(self) -> bool {
        false
    }

    fn scpi_magnitude(self) -> u128 {
        self as u128
    }
}

impl ScpiDisplay for usize {
    open spec fn scpi_value(self) -> int {
        self as int
    }

    fn scpi_negative(self) -> bool {
        false
    }

    fn scpi_magnitude(self) -> u128 {
        self as u128
    }
}

/// Why a value could not be encoded as SCPI program data.
#[derive(Copy, Clone, Debug, Eq, PartialEq, Structural)]
pub enum EncodeError {
    /// Discrete mnemonic text holds a non-ASCII or disallowed control character.
    InvalidMnemonic,
    /// String content holds a character outside the permitted ASCII set.
    InvalidStringCharacter,
    /// Block byte length needs more than 9 decimal digits to express.
    BlockTooLarge,
    /// Finite numeric magnitude exceeds the decimal program-data range.
    NumericOutOfRange,
}

} // verus!
