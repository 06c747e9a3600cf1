//! The transport through which a driver reaches the device's registers. Users
//! implement [`RegisterInterface`] for their bus (SPI, I2C, ...).

use vstd::prelude::*;

verus! {

/// A single bit.
#[derive(Debug, Clone, Copy, PartialEq, Eq, Structural)]
pub enum Bit {
    /// The bit is 0.
    _0,
    /// The bit is 1.
    _1,
}

impl Bit {
    pub fn from_bool(b: bool) -> (r: Bit)
        ensures
            r == if b {
                Bit::_1
            } else {
                Bit::_0
            },
    {
        if b {
            Bit::_1
        } else {
            Bit::_0
        }
    }

    pub fn is_set(&self) -> (r: bool)
        ensures
            r == (*self == Bit::_1),
    {
        match self {
            Bit::_0 => false,
            Bit::_1 => true,
        }
    }
}

/// Why reading or writing a register failed: the raw value named no valid
/// field value, or the transport failed.
#[derive(Debug, Clone, PartialEq, Eq)]
pub enum RegisterError<IE> {
    InvalidValue,
    HardwareError(IE),
}

/// Marks field types whose conversion from a raw value can fail.
pub trait FallibleField {}

/// A field type that every raw value of its width converts to: an enum with
/// a variant for each of the `num_bits` bit patterns.
pub trait InfallibleField {
    /// The number of bits in the field.
    fn num_bits() -> u32;
}

impl InfallibleField for Bit {
    fn num_bits() -> (r: u32)
        ensures
            r == 1,
    {
        1
    }
}

/// Reads and writes registers on the device.
pub trait RegisterInterface {
    /// The type of a register address.
    type Address;
    /// The errors the transport can report.
    type InterfaceError;

    /// Reads the register at `address` into `value`.
    fn read_register(&mut self, address: Self::Address, value: &mut [u8]) -> Result<
        (),
        Self::InterfaceError,
    >;

    /// Writes `value` to the register at `address`.
    fn write_register(&mut self, address: Self::Address, value: &[u8]) -> Result<
        (),
        Self::InterfaceError,
    >;
}

} // verus!
