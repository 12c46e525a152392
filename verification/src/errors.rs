//! Error kinds shared by the symbol tables, the encoder and the driver.

use vstd::prelude::*;

verus! {

/// The failure kinds an assembly can surface.
///
/// `InvalidKey`, `KeyTooLong` and `NotFound` are raised by the symbol
/// tables; the encoder maps a `NotFound` on a mnemonic, register or label
/// lookup to `UnknownMnemonic`, `UnknownRegister` or `UnresolvedLabel`.
/// `BadImmediate` marks a lexically malformed integer literal and
/// `ImmediateOutOfRange` a literal that does not fit the immediate width
/// of the instruction format at hand.
#[derive(Clone, Copy, Debug, PartialEq, Eq, Structural)]
pub enum AsmError {
    InvalidKey,
    KeyTooLong,
    NotFound,
    UnknownMnemonic,
    UnknownRegister,
    UnresolvedLabel,
    BadImmediate,
    ImmediateOutOfRange,
    WrongOperandCount,
}

/// An assembly failure annotated with the 1-based source line it arose on.
#[derive(Clone, Copy, Debug, PartialEq, Eq, Structural)]
pub struct LineError {
    pub line: u32,
    pub kind: AsmError,
}

} // verus!
