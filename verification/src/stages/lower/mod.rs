//! Lowering: from the checked program to the IR.
pub mod collect;
pub mod context;
pub mod ir;
pub mod monomorphize;
pub mod stage;
