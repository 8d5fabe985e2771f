# Cairn runtime

Deterministic WebAssembly execution whose state can be committed to, disputed and judged one
instruction at a time. Everything under `src/` is verified with Verus.

Two volunteers run the same work unit and disagree. Each can say what state it was in after any
number of instructions. A binary search over those answers finds the one instruction that made
the two differ, and executing that instruction from a small witness of the state before it shows
who was wrong.

## Layout

| Module | What it is |
|---|---|
| `fuel` | the instruction counter and its snapshot schedule |
| `merkle` | commitments to paged memory: the whole tree, and the part of one that proofs reveal |
| `state` | values, and the hash of a machine's whole state |
| `wire` | witnesses as bytes, and back |
| `wasm`, `module` | what a binary holds, as `wasmparser` reads it |
| `validate` | which modules are admitted |
| `encode`, `canon` | instrumentation: metering, canonical NaNs, nothing that depends on a toolchain |
| `engine::operator`, `engine::image` | instructions, and a module made ready to run |
| `engine::float`, `engine::numeric` | arithmetic on bit patterns, to the last bit |
| `engine::semantics` | what one instruction means, as a function on states |
| `engine::memory`, `engine::machine`, `engine::witness` | the machine that does it |
| `engine::execution`, `engine::simulation` | whole executions, and machines rebuilt from witnesses |
| `engine::weaving` | a module and the same with instructions woven in, side by side |
| `engine::payloads` | two executions that differ in the bits of NaNs, side by side |
| `engine::instrumented` | that what instrumentation writes is a module with instructions woven in |
| `dispute` | the bisection game, adjudication, and a party that answers by replaying |

`bytes`, `text`, `hash` and `fold` are what the others share. `app/` holds what is ordinary Rust
around the library.

## What is stated

Each executable function states its result as a value of a specification function. What holds of
several of them together is a public proof function whose name begins with `law_`: that a proof
of a page convicts a wrong one, that running agrees with stepping, that a machine rebuilt from an
honest witness takes the same step, that the search finds a first divergence in a logarithmic
number of rounds, that a party that tells the truth is never found guilty whatever witness is
handed over, that a witness survives being sent, that instrumentation keeps every instruction and
pays for each once, that custom sections leave the canonical binary alone, that metering does not
change what a program computes, that it computes the same whether NaNs are made canonical
everywhere or only where they escape, and that no bits an engine leaves in a NaN reach its answer.

## What is trusted

Hashing is `blake3`'s, reading binaries `wasmparser`'s, writing them `wasm-encoder`'s. Each call
stands in a small function of its own in `hash`, `wasm`, `validate` or `encode`, with a comment
that says what is believed of it. The laws on commitments say that two things with one root are
equal, or that two of the byte strings hashed for them are different and have one hash.
