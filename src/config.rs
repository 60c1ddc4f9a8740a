use vstd::prelude::*;

verus! {

/// Size of one virtual or physical page in bytes.
pub const PAGE_SIZE: usize = 4096;

/// Number of slots in a task's per-syscall counter table.
pub const MAX_SYSCALL_NUM: usize = 500;

/// Pid of the init process, which adopts orphans and must never exit.
pub const INIT_PID: usize = 0;

pub const SYSCALL_OPEN: usize = 56;
pub const SYSCALL_CLOSE: usize = 57;
pub const SYSCALL_READ: usize = 63;
pub const SYSCALL_WRITE: usize = 64;
pub const SYSCALL_EXIT: usize = 93;
pub const SYSCALL_YIELD: usize = 124;
pub const SYSCALL_GET_TIME: usize = 169;
pub const SYSCALL_GETPID: usize = 172;
pub const SYSCALL_SBRK: usize = 214;
pub const SYSCALL_MUNMAP: usize = 215;
pub const SYSCALL_FORK: usize = 220;
pub const SYSCALL_EXEC: usize = 221;
pub const SYSCALL_MMAP: usize = 222;
pub const SYSCALL_WAITPID: usize = 260;
pub const SYSCALL_TASK_INFO: usize = 410;
pub const SYSCALL_SPAWN: usize = 1000;
pub const SYSCALL_FSTAT: usize = 1001;
pub const SYSCALL_LINKAT: usize = 1002;
pub const SYSCALL_UNLINKAT: usize = 1003;

} // verus!
