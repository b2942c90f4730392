//! A small scripting language: lexer, recursive-descent parser, compiler to
//! a stack-machine bytecode, and a virtual machine with a mark-and-sweep heap.
pub mod text;
pub mod token;
pub mod opcodes;
pub mod ast;
pub mod errors;
pub mod value;
pub mod vm;
pub mod compiler;
pub mod lexer;
pub mod parser;
