//! Mutexes identified by name, each held by at most one task.

use crate::keyed::{VecMap, value_views};
use crate::locks::{
    BadSyncError, LockName, LockOperation, LockOperationView, SyncDomain, SyncOperation,
    exclusive_error, exclusive_runnable, exclusive_select, exclusive_selected,
};
use crate::task::TaskId;
use vstd::prelude::*;

verus! {

/// Which task holds each held mutex.
#[derive(Debug)]
pub struct MutexState {
    pub(crate) lock_held_by: VecMap<LockName, TaskId>,
}

impl View for MutexState {
    type V = Map<Seq<char>, u64>;

    closed spec fn view(&self) -> Map<Seq<char>, u64> {
        value_views(self.lock_held_by@)
    }
}

impl MutexState {
    pub fn new() -> (r: Self)
        ensures
            r@ == Map::<Seq<char>, u64>::empty(),
    {
        let r = MutexState { lock_held_by: VecMap::new() };
        proof {
            assert(r@ =~= Map::<Seq<char>, u64>::empty());
        }
        r
    }
}

impl Default for MutexState {
    fn default() -> (r: Self)
        ensures
            r@ == Map::<Seq<char>, u64>::empty(),
    {
        MutexState::new()
    }
}

/// An operation on a mutex.
#[derive(Debug)]
pub enum MutexOperation {
    Acquire(String),
    Release(String),
}

impl View for MutexOperation {
    type V = LockOperationView;

    open spec fn view(&self) -> LockOperationView {
        match self {
            MutexOperation::Acquire(l) => LockOperationView::Acquire(l@),
            MutexOperation::Release(l) => LockOperationView::Release(l@),
        }
    }
}

impl MutexOperation {
    fn as_lock_operation(&self) -> (r: LockOperation)
        ensures
            r@ == self@,
    {
        match self {
            MutexOperation::Acquire(l) => LockOperation::Acquire(l.clone()),
            MutexOperation::Release(l) => LockOperation::Release(l.clone()),
        }
    }

    /// Whether the task makes progress with this operation.
    pub fn is_task_runnable(&self, state: &MutexState, task: TaskId) -> (r: bool)
        ensures
            r == exclusive_runnable(state@, self@),
    {
        state.is_task_runnable(task, self)
    }

    /// Takes this operation of the task as done.
    pub fn task_selected_for_running(&self, state: &mut MutexState, task: TaskId) -> (r: Result<
        (),
        BadSyncError,
    >)
        ensures
            final(state)@ == exclusive_selected(old(state)@, task@, self@).0,
            r is Ok == exclusive_selected(old(state)@, task@, self@).1,
            r matches Err(e) ==> e.0@ == exclusive_error(old(state)@, task@, self@),
    {
        let op = self.as_lock_operation();
        exclusive_select(&mut state.lock_held_by, task, &op)
    }
}

impl SyncDomain for MutexState {
    type SyncOperation = MutexOperation;

    open spec fn domain_described() -> bool {
        true
    }

    open spec fn runnable_spec(state: Map<Seq<char>, u64>, task: u64, op: LockOperationView) -> bool {
        exclusive_runnable(state, op)
    }

    open spec fn selected_spec(state: Map<Seq<char>, u64>, task: u64, op: LockOperationView) -> (
        Map<Seq<char>, u64>,
        bool,
    ) {
        exclusive_selected(state, task, op)
    }

    fn is_task_runnable(&self, task: TaskId, op: &MutexOperation) -> (r: bool) {
        match op {
            MutexOperation::Acquire(lock_id) => !self.lock_held_by.contains_key(
                &LockName::new(lock_id),
            ),
            MutexOperation::Release(_) => true,
        }
    }

    fn task_selected_for_running(&mut self, task: TaskId, op: &MutexOperation) -> (r: Result<
        (),
        BadSyncError,
    >) {
        op.task_selected_for_running(self, task)
    }
}

impl SyncOperation for MutexOperation {
    type Domain = MutexState;
}

} // verus!
