//! A small-language implementation: a tree-to-bytecode compiler and a
//! register-based virtual machine with a mark-and-sweep heap.
//!
//! The compiler lowers an abstract syntax tree to a flat instruction
//! sequence, pooling constants and allocating registers with a LIFO
//! discipline.  The virtual machine executes that sequence against a fixed
//! register file, a growable call stack of activation frames, and an
//! index-addressed heap reclaimed by a mark-and-sweep collector.

pub mod ast;
pub mod cc;
pub mod ctx;
pub mod err;
pub mod lex;
pub mod op;
pub mod reg;
pub mod value;
pub mod vm;
