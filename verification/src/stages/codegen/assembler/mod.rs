//! Assembly source, built as values and written out as text.
pub mod emitter;
pub mod z80;
