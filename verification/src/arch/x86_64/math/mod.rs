//! The integer side of the quantised matrix kernels: where each weight lies,
//! what code it has, and which rows a kernel writes.

pub mod formats;
pub mod linear;
pub mod vnni;
