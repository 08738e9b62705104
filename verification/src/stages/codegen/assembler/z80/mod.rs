//! The Z80 assembly language.
pub mod assembly;
pub mod builder;
pub mod condition;
pub mod operand;
pub mod register;
