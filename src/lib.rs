//! The middle of an optimizing compiler for the eight-instruction tape language:
//! parsing source text into instructions, peephole optimization to a fixed point,
//! a static bound on the cells a program touches, and compile-time execution up to
//! a step budget. Lowering to machine code is left to the host.

pub mod ir;
pub mod parser;
pub mod peephole;
pub mod bounds;
pub mod execution;
pub mod diagnostics;
pub mod driver;
pub mod naming;
pub mod compile;
