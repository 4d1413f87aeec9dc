//! The system calls, as steps on the kernel's state.
//!
//! A call that the hardware would interrupt by a context switch is cut at
//! that point: the step returns a [`SyscallStep`] that tells the caller
//! whether the calling thread goes on, sleeps or yields, and which other
//! thread has become ready.

pub mod process;
pub mod sync;

pub use sync::SyscallStep;
