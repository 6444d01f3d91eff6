//! Decoder for the textual CPU state dump that a virtual-machine monitor prints
//! for its register-inspection command, with every decoder proved against a
//! functional model of the grammar.
//!
//! `scan` holds the character-level pieces, `x86_element_parser` the field
//! and line decoders, `x86_cpu_state_parser` the record and its sections, and
//! `dump_text` the text of well-formed dumps with the proofs that they decode
//! to the numbers written in them.

pub mod dump_text;
pub mod scan;
pub mod x86_cpu_state_parser;
pub mod x86_element_parser;

pub use scan::{CharClass, Expected, ParseError};
pub use x86_cpu_state_parser::{
    Cpu, ControlRegs, DebugRegs, DescriptorTable, GeneralRegisters, SegmentRegisters,
    StatusRegisters,
};
pub use x86_element_parser::HFlag;
