//! A tokenizer and execution engine for a small concatenative, stack-based
//! scripting language.
//!
//! A program is a flat sequence of whitespace-separated tokens; the engine
//! consumes tokens left to right, maintaining an operand stack, a named
//! variable store, and a program counter that control-flow tokens may move
//! non-locally.

pub mod engine;
pub mod numeric;
pub mod strops;
pub mod tokenizer;
pub mod value;
