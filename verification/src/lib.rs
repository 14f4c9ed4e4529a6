//! A just-in-time compiler for an eight-symbol tape language: source text is folded
//! into an instruction sequence with resolved loops, and the sequence is turned
//! into x86-64 machine code.
//!
//! - [`parser`]: source text to instruction sequence.
//! - [`compiler`] and [`encoding`]: instruction sequence to machine code, and what
//!   that code is, byte by byte.
//! - [`interpreter`]: what a source text means, one symbol at a time.
//! - [`machine`] and [`tape`]: what an instruction sequence means, one instruction
//!   at a time.
//! - [`native`]: what the machine code means, on a model of the processor.
//! - [`equivalence`], [`commentary`]: the three meanings agree.
//! - [`loops`], [`folding`], [`nesting`]: the facts about loop structure and
//!   folding that the proofs rest on.
//!
//! Making memory executable and calling into it stays with the program that uses
//! this library.

pub mod commentary;
pub mod compiler;
pub mod encoding;
pub mod equivalence;
pub mod folding;
pub mod interpreter;
pub mod loops;
pub mod machine;
pub mod native;
pub mod nesting;
pub mod parser;
pub mod tape;
