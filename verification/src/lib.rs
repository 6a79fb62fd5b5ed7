//! The self-contained core of a zkVM benchmarking harness: an
//! eight-command, pointer/byte-memory language is loaded from source text,
//! its loop brackets resolved once into a shared jump table, then either
//! executed by a reference interpreter that reports an authoritative output
//! trace and instruction count, or lowered in one pass into textual assembly
//! for an external load/store, branch/jump virtual machine. A spec-level
//! model of that machine, with a proof that compiled programs reproduce the
//! interpreter's output, ties the two paths together. Around the core sit
//! the harness's small verifiable pieces: its identifier enums, a timing
//! helper, a SHA-256 hash chain and a reduced Fibonacci iteration.
pub mod brackets;
pub mod compiler;
pub mod fib;
pub mod hashchain;
pub mod ids;
pub mod interpreter;
pub mod lang;
pub mod timing;
pub mod vm;

use vstd::prelude::*;

verus! {

/// The error kinds shared by the program loader, the bracket resolver, the
/// interpreter and the compiler.
#[derive(Clone, Copy, Debug, PartialEq, Eq, Structural)]
pub enum Error {
    /// A field of the input value list is not an unsigned 32-bit integer.
    ParseError,
    /// The program's brackets are unbalanced or incorrectly nested.
    UnmatchedBracket,
    /// The data pointer would move outside the memory array.
    MemoryBoundsError,
    /// The instruction counter's width was exhausted before the program
    /// halted, so no faithful count could be reported.
    StepLimitExceeded,
}

} // verus!
