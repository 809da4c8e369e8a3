//! An interpreter core for a small dynamically typed expression language:
//! a scanner that produces tokens on demand, a single-pass Pratt compiler
//! from tokens to bytecode, and a stack machine that runs the bytecode.
//!
//! Numbers are IEEE-754 doubles held as bit patterns. Comparisons, equality
//! and negation on them are computed here; parsing number literals, rounding
//! arithmetic and printing are left to the embedding program, which the
//! machine asks through `vm::Outcome::Compute`.
use vstd::prelude::*;

pub mod chunk;
pub mod compiler;
pub mod debug;
pub mod memory;
pub mod number;
pub mod object;
pub mod scanner;
pub mod source;
pub mod value;
pub mod vm;

verus! {

} // verus!
