//! The name resolver and the pattern-match lowerer of a compiler for a
//! functional, statically typed language.

pub mod key;
pub mod lower;
pub mod merge;
pub mod mir;
pub mod mono;
pub mod names;
pub mod pat;
pub mod range;
pub mod report;
pub mod resolve;
pub mod ssa;
pub mod token;
pub mod tree;
pub mod types;
