//! Synchronisation primitives and the deadlock-avoidance engine they share.
//!
//! A primitive never suspends a thread itself. An operation that may have
//! to wait changes the primitive's state and reports, as an [`Acquire`],
//! whether the calling thread went on, has to be blocked or has to yield;
//! an operation that may wake a waiter returns the thread to make ready.

pub mod banker;
pub mod condvar;
pub mod mutex;
pub mod semaphore;

pub use banker::Banker;
pub use condvar::Condvar;
pub use mutex::Acquire;
pub use mutex::Mutex;
pub use mutex::MutexBlocking;
pub use mutex::MutexSpin;
pub use semaphore::Semaphore;
