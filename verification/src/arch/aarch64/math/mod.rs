//! The integer side of the matrix kernels on this machine.

pub mod linear;
