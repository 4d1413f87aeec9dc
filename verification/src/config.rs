//! Constants shared by the whole kernel.

use vstd::prelude::*;

verus! {

/// Size of a page and of a physical frame, in bytes.
pub const PAGE_SIZE: u64 = 4096;

/// Number of system calls counted for each task.
pub const MAX_SYSCALL_NUM: usize = 500;

} // verus!
