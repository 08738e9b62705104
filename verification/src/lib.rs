//! Buyan: a statically typed, stack-oriented language inspired by Forth.
pub mod common;
pub mod error;
pub mod fs;
pub mod lints;
pub mod pipeline;
pub mod stages;
pub mod text;
