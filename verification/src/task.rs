//! Identities of the tasks that the scheduler controls.

use crate::keyed::{Key, VecSet};
use vstd::prelude::*;

verus! {

/// The identity of a task registered with a scheduler. Identities start at 1
/// and are given out in registration order.
#[derive(Clone, Copy, Debug, PartialEq, Eq, Structural, PartialOrd, Ord, Hash)]
pub struct TaskId(pub(crate) u64);

impl View for TaskId {
    type V = u64;

    closed spec fn view(&self) -> u64 {
        self.0
    }
}

impl TaskId {
    pub fn new(id: u64) -> (r: TaskId)
        requires
            id != 0,
        ensures
            r@ == id,
    {
        TaskId(id)
    }

    pub fn get(self) -> (r: u64)
        ensures
            r == self@,
    {
        self.0
    }

    pub proof fn lemma_view_injective(a: TaskId, b: TaskId)
        ensures
            (a@ == b@) == (a == b),
    {
    }
}

impl Key for TaskId {
    fn same_key(&self, other: &Self) -> (r: bool) {
        self.0 == other.0
    }

    fn copy_key(&self) -> (r: Self) {
        *self
    }
}

/// The identity of a task that is stable across runs of the same test: the
/// scheduler gives it when it first makes a decision that involves the task.
/// Stable identities start at 1.
#[derive(Clone, Copy, Debug, PartialEq, Eq, Structural, PartialOrd, Ord, Hash)]
pub struct TaskStableId(pub(crate) u64);

impl View for TaskStableId {
    type V = u64;

    closed spec fn view(&self) -> u64 {
        self.0
    }
}

impl TaskStableId {
    pub fn new(id: u64) -> (r: TaskStableId)
        requires
            id != 0,
        ensures
            r@ == id,
    {
        TaskStableId(id)
    }

    pub fn get(self) -> (r: u64)
        ensures
            r == self@,
    {
        self.0
    }
}

impl Key for TaskStableId {
    fn same_key(&self, other: &Self) -> (r: bool) {
        self.0 == other.0
    }

    fn copy_key(&self) -> (r: Self) {
        *self
    }
}

/// A set of tasks.
pub type TaskSet = VecSet<TaskId>;

} // verus!
