//! A minimal flat filesystem on top of a fixed-size block device.
//!
//! Named files are created, opened, read, written and closed through small
//! integer descriptors. The file index lives in two reserved blocks at the
//! start of the device and survives a restart. Every function is verified
//! against a mathematical model of the device and of the engine's state.

pub mod layout;
pub mod error;
pub mod codec;
pub mod disk;
pub mod block_io;
pub mod fd_table;
pub mod file;
pub mod directory;
pub mod growth;
pub mod model;
pub mod invariants;
pub mod file_system;
pub mod laws;

