//! A table-driven LL(1) parsing engine.
//!
//! A [`gram::Gram`] is analysed into FIRST, FOLLOW and prediction sets; an
//! [`parser::LL1Parser`] built from it drives an explicit derivation stack over
//! a token sequence and produces a syntax tree.
use vstd::prelude::*;

pub mod ast;
pub mod bits;
pub mod cells;
pub mod complete;
pub mod error;
pub mod first;
pub mod follow;
pub mod gram;
pub mod laws;
pub mod machine;
pub mod parser;
pub mod predict;
pub mod rank;
pub mod sound;
pub mod source;
pub mod stack;
pub mod text;
pub mod token;
pub mod theory;

verus! {

/// How much tracing a parser's owner wants to see.
#[derive(Debug, PartialEq, Eq, PartialOrd, Ord, Clone, Copy)]
pub enum VerboseLv {
    V0,
    V1,
    V2,
}

} // verus!
