//! Boot-time core of a small operating-system project: the on-disk image
//! builder for its sector-based filesystem, and the kernel's first memory
//! subsystem (a claimed-region map and a bump allocator over a static buffer).

pub mod arch;
pub mod blocks;
pub mod config;
pub mod console;
pub mod limine;
pub mod log;
pub mod map;
pub mod mkfs;
pub mod plexus;
pub mod serial;
pub mod staticalloc;
pub mod tools;
