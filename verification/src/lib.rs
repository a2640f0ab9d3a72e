//! A verified interpreter for a minimal tape-based language: eight symbols
//! drive a movable pointer over a growable byte tape, with one looping
//! construct gated on the current cell.
//!
//! The crate holds the program tree and parser, a peephole optimizer, the
//! execution engine (specified exactly against a step-indexed semantics),
//! and a loop profiler that reconstructs per-loop statistics from the
//! engine's flat enter/leave event stream. The laws module proves the
//! headline properties: the optimizer preserves observable execution,
//! cell arithmetic is closed under modulo 256, the tape never shrinks and
//! the pointer never escapes it, and the instruction counter cross-checks
//! against the profiler's leave events.

pub mod interpreter;
pub mod laws;
pub mod profiler;
pub mod semantics;
