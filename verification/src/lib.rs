//! A verified interpreter for a minimal tape-based language with eight
//! single-character opcodes.
//!
//! The `machine` module gives the mathematical model: the abstract machine
//! state and a `step` function that says exactly what one instruction does,
//! including the balance-tracking scans that implement `[` and `]`.
//! The `bf` module holds the executable interpreter, proved to follow `step`.
//! The `laws` module proves general properties of runs of the machine.

pub mod bf;
pub mod laws;
pub mod machine;
