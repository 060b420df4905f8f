pub mod lexer;
pub mod ast;
pub mod words;
pub mod command;
pub mod cli;
pub mod console;
