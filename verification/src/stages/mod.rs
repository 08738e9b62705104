pub mod codegen;
pub mod interpreter;
pub mod lower;
pub mod parse;
pub mod semantic;
