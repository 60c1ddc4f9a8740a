//! Process lifecycle, scheduling and the user-memory boundary of a small
//! single-core teaching kernel, as plain data with verified contracts.
//!
//! - `mm`: page tables that own their frames, and the translation of user
//!   pointers into page-local byte ranges.
//! - `task`: task control blocks, the process table, the FIFO ready queue
//!   and the lifecycle operations (fork, exec, spawn, exit, waitpid).
//! - `process` and `fs`: the syscalls on the Running task.
//! - `abi`: the byte layout of records copied to and from user memory.
pub mod abi;
pub mod config;
pub mod fs;
pub mod mm;
pub mod process;
pub mod task;
