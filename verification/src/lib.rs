//! A verified interpreter for the Brainfuck esoteric language: a parser that
//! turns program text into an instruction tree, and a virtual machine that
//! walks the tree against a bounded byte tape under an operation budget.

pub mod eval;
pub mod laws;
pub mod semantics;
