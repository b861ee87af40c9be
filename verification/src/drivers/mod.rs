//! Device drivers.

pub mod nvme;
pub mod nvme_probe;
pub mod nvme_report;
