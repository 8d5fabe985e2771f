//! Deterministic WebAssembly execution with Merkle-committed execution traces.
//!
//! A volunteer executes a work unit once and returns the answer together with a commitment to
//! how it got there. When two volunteers disagree, the coordinator bisects their commitments to
//! the single instruction where they diverged and re-executes only that instruction.
//!
//! Nothing in this crate depends on wall-clock time, system entropy, thread scheduling, memory
//! addresses or hash-map iteration order.
pub mod admission;
pub mod bytes;
pub mod canon;
pub mod dispute;
pub mod encode;
pub mod engine;
pub mod fold;
pub mod fuel;
pub mod hash;
pub mod merkle;
pub mod module;
pub mod sections;
pub mod state;
pub mod text;
pub mod validate;
pub mod wasm;
pub mod wire;

