//! A small regular-expression engine: a parser from pattern text to a syntax
//! tree, a code generator from the tree to a program for a tiny virtual
//! machine, and a backtracking evaluator that runs that program on text.
use vstd::prelude::*;

pub mod engine;
pub mod helper;

pub use engine::do_matching;

verus! {

} // verus!
