//! The hardware-independent core of a bare-metal kernel: the rules by which it
//! reads firmware tables, brings up processors and storage, schedules inference
//! work and reports what it measured. Nothing in this crate touches a device.
//! Every function works on plain values: what was read from the machine comes
//! in as an argument, and what is to be written to it goes out as a result.

pub mod arch;
pub mod bench;
pub mod bits;
pub mod bytes;
pub mod control_plane;
pub mod drivers;
pub mod inference_avx512;
pub mod nvme_layout;
pub mod text;
