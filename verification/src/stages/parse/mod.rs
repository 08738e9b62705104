pub mod ast;
pub mod dump;
pub mod filter_target;
pub mod grammar;
pub mod lexer;
pub mod parser;
pub mod stage;
