//! A small line-numbered BASIC dialect: tokenizer, parser and interpreter.
pub mod ast;
pub mod text;
pub mod lexer;
pub mod interpreter;
pub mod parser;
pub mod format;
