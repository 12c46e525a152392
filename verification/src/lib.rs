//! A two-pass assembler for the RV32I base instruction set.
//!
//! Source text flows through a line buffer and a lexer into the encoder,
//! which consults three symbol tables (mnemonics, registers, labels) and
//! produces 32-bit instruction words tagged with 16-bit word addresses.
//! A formatter renders each encoded word as one Intel HEX data record.

pub mod buffer;
pub mod encoding;
pub mod errors;
pub mod hexfmt;
pub mod lexer;
pub mod numparse;
pub mod translator;
pub mod symtab;
