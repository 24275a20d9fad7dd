//! An interpreter for a tiny eight-instruction language over a circular byte tape.
//!
//! `eof` holds the end-of-input policy and its textual form; `engine` holds the
//! machine itself and its mathematical model; `laws` and `noops` hold what is
//! proved of that model: the data pointer stays on the tape, cell arithmetic
//! wraps, an unmatched `[` fails exactly when it must jump, and bytes that are
//! not instructions change nothing.
pub mod eof;
pub mod engine;
pub mod laws;
pub mod noops;
