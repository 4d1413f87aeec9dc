//! Core of a small preemptive kernel for an SV39 machine: page tables,
//! scheduling disciplines and synchronisation with deadlock avoidance.
//!
//! The kernel's state is held in plain values: physical memory is an arena
//! of frames, tasks are named by their index, and every operation that the
//! hardware would interleave with a context switch is a step from one state
//! to the next that reports what the caller has to do.

pub mod config;
pub mod mm;
pub mod sync;
pub mod syscall;
pub mod task;
