//! Lock domains for mutexes and read-write locks.

pub mod mutex;
pub mod rwlock;
