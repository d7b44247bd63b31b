//! A bytecode interpreter for a small dynamically typed expression language:
//! a scanner, a single-pass Pratt compiler, a bytecode chunk format, a
//! mark-sweep object heap and a stack machine, each with a verified contract.
//!
//! The library does no floating-point work of its own. A number is carried as
//! the bit pattern of an IEEE-754 binary64 value; number literals are converted
//! by the caller before compilation, and the machine hands each arithmetic
//! operation on two numbers to the caller and takes the result back.

pub mod chunk;
pub mod compiler;
pub mod heap;
pub mod scanner;
pub mod table;
pub mod value;
pub mod vm;
