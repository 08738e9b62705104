//! Runs IR programs.
pub mod executor;
