//! The core of a small x86-64 kernel: a virtual filesystem whose files are
//! the only IPC primitive, the attachment protocol by which a user process
//! serves a node, and the wait / event / I/O-result protocol that ties every
//! file operation to the scheduler.
//!
//! Everything here is plain data and decisions. Hardware, the global lock and
//! the real scheduler live with the caller, which performs what the values
//! returned from this crate ask for.

pub mod table;
pub mod abi;
pub mod process;
pub mod multitasking;
pub mod filesystem;
pub mod interrupt;
pub mod smp;
pub mod time;
