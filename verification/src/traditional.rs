pub mod lexer;
pub mod parser;
pub mod token;
