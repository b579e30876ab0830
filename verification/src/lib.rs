//! A front end for a language of eight symbols that works on a tape of
//! cells: a parser from source text to a tree of instructions, and a code
//! generator from that tree to a module of an optimizing backend, as text.
//!
//! The parser is verified, and so is the lowering of instructions to the
//! steps of a routine, and what those steps do when they run: the routine
//! of a program leaves the store that the program means. The backend itself
//! is called through declarations that are taken on trust; they are all in
//! `llvm`.

pub mod backend;
pub mod codegen;
pub mod ir;
pub mod llvm;
pub mod machine;
pub mod parser;
pub mod simulation;
