//! Code generation: from the IR to assembly.
pub mod assembler;
pub mod z80_cpm;
pub mod z80_machine;
