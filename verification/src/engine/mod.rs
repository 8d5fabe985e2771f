//! The interpreter: bit-exact arithmetic, decoding and execution.
pub mod control;
pub mod decoding;
pub mod execution;
pub mod float;
pub mod floats;
pub mod image;
pub mod instructions;
pub mod instrumented;
pub mod integers;
pub mod machine;
pub mod memory;
pub mod numeric;
pub mod operator;
pub mod payloads;
pub mod runs;
pub mod semantics;
pub mod simulation;
pub mod starting;
pub mod weaving;
pub mod witness;
