//! A single-pass bytecode compiler and stack virtual machine for a small
//! dynamically typed expression language.
//!
//! A source string is scanned into tokens, compiled in one forward pass into a
//! chunk of bytecode with its constant pool, and executed on a value stack.
//! Every stage is stated as a mathematical function of the source bytes, and
//! the executable code is proved to compute that function.

pub mod number;
pub mod value;
pub mod chunk;
pub mod vm;
pub mod scanner;
pub mod compiler;
pub mod arithmetic;
pub mod expression;
pub mod debug;
