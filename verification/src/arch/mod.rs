//! Processor and board support.

pub mod aarch64;
pub mod x86_64;
