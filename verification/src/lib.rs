//! A controlled scheduler for finding races in asynchronous code: the
//! scheduling decisions, the models of synchronization primitives that tell
//! which tasks can make progress, and the replayable execution traces.

pub mod keyed;
pub mod task;
pub mod sync_model;
pub mod sync;
pub mod scheduler;
pub mod text;
pub mod lock_model;
pub mod locks;
pub mod string_pool;
pub mod parsed_replay_trace;
pub mod full_trace;
pub mod replay_trace;
pub mod trace;
pub mod driver;
