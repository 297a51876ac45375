//! A split-virtqueue driver core for guests whose memory is private by
//! default: every buffer handed to the device is staged in shared memory,
//! and device-written results are copied back when a chain is reclaimed.

pub mod elf;
pub mod error;
pub mod layout;
pub mod registry;
pub mod staging;
pub mod virtqueue;
