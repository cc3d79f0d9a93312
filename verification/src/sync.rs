//! The sync models of the primitives that the library knows.

pub mod join;
pub mod mutex;
pub mod rwlock;
pub mod start_barrier;
pub mod task_wait;
pub mod unknown_wait;
pub mod watch;
