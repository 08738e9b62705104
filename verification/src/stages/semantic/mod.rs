//! Name resolution and checking.
pub mod collect_hir;
pub mod collect_names;
pub mod context;
pub mod hir;
pub mod stack_analysis;
pub mod type_check;
