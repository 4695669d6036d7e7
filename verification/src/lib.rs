//! A DC operating-point solver for lumped electrical circuits.
//!
//! A netlist of two-terminal components — resistors, ideal current and
//! voltage sources, and exponential diodes — is turned into a linear system
//! by Modified Nodal Analysis and solved by dense Gaussian elimination with
//! partial pivoting; nonlinear elements drive a Newton-style fixed-point
//! iteration around that linear solve.
//!
//! Circuit values are IEEE-754 binary64 numbers, carried everywhere as their
//! 64-bit patterns (see [`fp`]), so that every contract pins down the exact
//! bits a computation produces.

pub mod fp;
pub mod linalg;
pub mod matrix;
pub mod network;
pub mod solver;
pub mod sparse;
