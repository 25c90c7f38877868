//! A small ahead-of-time compiler: tokens are parsed into a `Program`,
//! the program is checked, and checked programs are lowered to x86-64
//! assembly text.

pub mod file_info;
pub mod ast;
pub mod text;
pub mod checked_program;
pub mod tokenizer;
pub mod parser;
pub mod code_generation;
