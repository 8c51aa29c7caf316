//! A minimal 4-bit ("nibble") stack-machine CPU and its assembler.
//!
//! The crate is organised leaf-first:
//! - [`nibble`] holds the 4-bit value type with wraparound arithmetic and
//!   explicit carry-out, the primitive every multi-nibble operation builds on;
//! - [`vm`] holds the 256-cell open-bus memory model and the fetch/execute
//!   cycle of the simulator;
//! - [`assembler`] holds the token grammar, the instruction list it parses
//!   into, and the two-pass label resolution and encoding that produce the
//!   flat nibble stream the simulator loads.

pub mod assembler;
pub mod nibble;
pub mod vm;
