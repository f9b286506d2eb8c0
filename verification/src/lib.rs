//! A small tape-machine language: eight operators on a tape of 65,536 bytes.
//!
//! - `tokenizer` turns source bytes into run-length tokens and resolves the
//!   loop brackets into jumps.
//! - `interpreter` is the reference semantics: a machine that runs the
//!   tokens one step at a time.
//! - `jit_compiler` translates the tokens into x86-64 machine code, and
//!   `code_memory` places that code in executable memory.
//! - `native` says what the processor does with such code, `emulator` runs
//!   it on that model, and `equivalence` shows that it does what the
//!   interpreter does.

pub mod code_memory;
pub mod emulator;
pub mod equivalence;
pub mod interpreter;
pub mod jit_compiler;
pub mod native;
pub mod tokenizer;

pub use tokenizer::{Token, TokenKind, UnbalancedBracketsError};
