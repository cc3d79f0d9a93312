//! Task groups: a task that waits for tasks of a group (any `n` of them, or
//! a particular one) is blocked until they complete.

use crate::keyed::{Key, VecMap, VecSet, value_views};
use crate::sync_model::{
    BadSyncError, DynSyncModel, NotificationOutcome, ProcessSyncEvent, ProcessSyncInitEvent,
    SyncEvent, SyncInitEvent, SyncModel, TaskProgressDependencies, unrestricted,
};
use crate::task::TaskId;
use vstd::prelude::*;

verus! {

/// The identity of a group of tasks.
#[derive(Debug, Clone, Copy, PartialEq, Eq, Structural, Hash)]
pub struct TaskGroup(pub(crate) u64);

impl View for TaskGroup {
    type V = u64;

    closed spec fn view(&self) -> u64 {
        self.0
    }
}

impl TaskGroup {
    pub fn from_id(id: u64) -> (r: Self)
        ensures
            r@ == id,
    {
        TaskGroup(id)
    }
}

impl Key for TaskGroup {
    fn same_key(&self, other: &Self) -> (r: bool) {
        self.0 == other.0
    }

    fn copy_key(&self) -> (r: Self) {
        *self
    }
}

/// The index of a task within its group.
#[derive(Debug, Clone, Copy, PartialEq, Eq, Structural, Hash)]
pub struct TaskGroupSlotIdx(pub(crate) usize);

impl View for TaskGroupSlotIdx {
    type V = usize;

    closed spec fn view(&self) -> usize {
        self.0
    }
}

impl Key for TaskGroupSlotIdx {
    fn same_key(&self, other: &Self) -> (r: bool) {
        self.0 == other.0
    }

    fn copy_key(&self) -> (r: Self) {
        *self
    }
}

/// The slots of a group whose tasks were spawned, started and completed.
#[derive(Debug)]
pub struct TaskGroupState {
    pub(crate) completed: VecSet<TaskGroupSlotIdx>,
    pub(crate) spawned: VecSet<TaskGroupSlotIdx>,
    pub(crate) started: VecSet<TaskGroupSlotIdx>,
}

pub struct TaskGroupStateView {
    pub completed: Set<usize>,
    pub spawned: Set<usize>,
    pub started: Set<usize>,
}

impl View for TaskGroupState {
    type V = TaskGroupStateView;

    closed spec fn view(&self) -> TaskGroupStateView {
        TaskGroupStateView {
            completed: self.completed@,
            spawned: self.spawned@,
            started: self.started@,
        }
    }
}

impl TaskGroupState {
    fn new() -> (r: Self)
        ensures
            r@ == empty_group(),
    {
        TaskGroupState { completed: VecSet::new(), spawned: VecSet::new(), started: VecSet::new() }
    }
}

pub open spec fn empty_group() -> TaskGroupStateView {
    TaskGroupStateView { completed: Set::empty(), spawned: Set::empty(), started: Set::empty() }
}

/// What a waiting task waits for.
#[derive(Debug)]
pub enum TaskWaitCondition {
    AnyN { task_group: TaskGroup, num_tasks: usize },
    Specific { task_group: TaskGroup, slot: TaskGroupSlotIdx },
}

pub enum TaskWaitConditionView {
    AnyN { task_group: u64, num_tasks: usize },
    Specific { task_group: u64, slot: usize },
}

impl View for TaskWaitCondition {
    type V = TaskWaitConditionView;

    open spec fn view(&self) -> TaskWaitConditionView {
        match self {
            TaskWaitCondition::AnyN { task_group, num_tasks } => TaskWaitConditionView::AnyN {
                task_group: task_group@,
                num_tasks: *num_tasks,
            },
            TaskWaitCondition::Specific { task_group, slot } => TaskWaitConditionView::Specific {
                task_group: task_group@,
                slot: slot@,
            },
        }
    }
}

/// The state of all task groups and of the tasks that wait for them.
#[derive(Debug)]
pub struct TaskWaitModel {
    pub(crate) task_groups: VecMap<TaskGroup, TaskGroupState>,
    pub(crate) task_waits: VecMap<TaskId, TaskWaitCondition>,
}

pub struct TaskWaitModelView {
    pub task_groups: Map<u64, TaskGroupStateView>,
    pub task_waits: Map<u64, TaskWaitConditionView>,
}

impl View for TaskWaitModel {
    type V = TaskWaitModelView;

    closed spec fn view(&self) -> TaskWaitModelView {
        TaskWaitModelView {
            task_groups: value_views(self.task_groups@),
            task_waits: value_views(self.task_waits@),
        }
    }
}

/// The group states once a slot is marked as spawned, started or completed
/// (`which` is 0, 1 or 2); an unknown group is left alone.
pub open spec fn groups_with_slot(
    groups: Map<u64, TaskGroupStateView>,
    group: u64,
    slot: usize,
    which: int,
) -> Map<u64, TaskGroupStateView> {
    if !groups.contains_key(group) {
        groups
    } else {
        let g = groups[group];
        groups.insert(
            group,
            if which == 0 {
                TaskGroupStateView { spawned: g.spawned.insert(slot), ..g }
            } else if which == 1 {
                TaskGroupStateView { started: g.started.insert(slot), ..g }
            } else {
                TaskGroupStateView { completed: g.completed.insert(slot), ..g }
            },
        )
    }
}

impl TaskWaitModel {
    pub fn new() -> (r: Self)
        ensures
            r@.task_groups == Map::<u64, TaskGroupStateView>::empty(),
            r@.task_waits == Map::<u64, TaskWaitConditionView>::empty(),
    {
        let r = TaskWaitModel { task_groups: VecMap::new(), task_waits: VecMap::new() };
        proof {
            assert(r@.task_groups =~= Map::<u64, TaskGroupStateView>::empty());
            assert(r@.task_waits =~= Map::<u64, TaskWaitConditionView>::empty());
        }
        r
    }

    fn register_group(&mut self, task_group: TaskGroup)
        ensures
            final(self)@.task_groups == old(self)@.task_groups.insert(task_group@, empty_group()),
            final(self)@.task_waits == old(self)@.task_waits,
    {
        let ghost g = self@.task_groups;
        self.task_groups.insert(task_group, TaskGroupState::new());
        proof {
            assert(self@.task_groups =~= g.insert(task_group@, empty_group()));
        }
    }

    fn mark_slot(&mut self, task_group: TaskGroup, slot: usize, which: u8)
        requires
            which <= 2,
        ensures
            final(self)@.task_groups == groups_with_slot(
                old(self)@.task_groups,
                task_group@,
                slot,
                which as int,
            ),
            final(self)@.task_waits == old(self)@.task_waits,
    {
        let ghost g = self@.task_groups;
        if let Some(mut state) = self.task_groups.remove(&task_group) {
            if which == 0 {
                state.spawned.insert(TaskGroupSlotIdx(slot));
            } else if which == 1 {
                state.started.insert(TaskGroupSlotIdx(slot));
            } else {
                state.completed.insert(TaskGroupSlotIdx(slot));
            }
            self.task_groups.insert(task_group, state);
            proof {
                assert(self@.task_groups =~= groups_with_slot(g, task_group@, slot, which as int));
            }
        } else {
            proof {
                assert(self@.task_groups =~= g);
            }
        }
    }

    fn set_wait(&mut self, task_id: TaskId, condition: TaskWaitCondition)
        ensures
            final(self)@.task_waits == old(self)@.task_waits.insert(task_id@, condition@),
            final(self)@.task_groups == old(self)@.task_groups,
    {
        let ghost w = self@.task_waits;
        let ghost c = condition@;
        self.task_waits.insert(task_id, condition);
        proof {
            assert(self@.task_waits =~= w.insert(task_id@, c));
        }
    }
}

impl Default for TaskWaitModel {
    fn default() -> (r: Self)
        ensures
            r@.task_groups == Map::<u64, TaskGroupStateView>::empty(),
            r@.task_waits == Map::<u64, TaskWaitConditionView>::empty(),
    {
        TaskWaitModel::new()
    }
}

impl SyncModel for TaskWaitModel {
}

impl DynSyncModel for TaskWaitModel {
    /// A task that waits for `n` tasks of a group is ready when some spawned
    /// task of the group has not started yet (so that it starts) or when `n`
    /// tasks completed; a task that waits for a particular slot is ready when
    /// that slot completed. Waiting for an unknown group blocks.
    open spec fn progress(&self, task: u64) -> Option<Set<u64>> {
        let v = self@;
        if !v.task_waits.contains_key(task) {
            unrestricted()
        } else {
            match v.task_waits[task] {
                TaskWaitConditionView::AnyN { task_group, num_tasks } => {
                    if !v.task_groups.contains_key(task_group) {
                        None
                    } else {
                        let g = v.task_groups[task_group];
                        if exists|s: usize| #[trigger] g.spawned.contains(s) && !g.started.contains(s) {
                            unrestricted()
                        } else if g.completed.len() >= num_tasks {
                            unrestricted()
                        } else {
                            None
                        }
                    }
                },
                TaskWaitConditionView::Specific { task_group, slot } => {
                    if !v.task_groups.contains_key(task_group) {
                        None
                    } else if v.task_groups[task_group].completed.contains(slot) {
                        unrestricted()
                    } else {
                        None
                    }
                },
            }
        }
    }

    fn task_progress_dependencies(&self, task_id: TaskId) -> (r: TaskProgressDependencies) {
        match self.task_waits.get(&task_id) {
            None => TaskProgressDependencies::ready(),
            Some(TaskWaitCondition::AnyN { task_group, num_tasks }) => {
                let group = match self.task_groups.get(task_group) {
                    None => return TaskProgressDependencies::Blocked,
                    Some(group) => group,
                };
                proof {
                    group.spawned.lemma_view();
                    assert(self@.task_groups[task_group@] == group@);
                    assert(self@.task_waits[task_id@] == TaskWaitConditionView::AnyN {
                        task_group: task_group@,
                        num_tasks: *num_tasks,
                    });
                }
                let n = group.spawned.len();
                let mut i: usize = 0;
                while i < n
                    invariant
                        n == group.spawned.seq().len(),
                        i <= n,
                        group.spawned@ == group.spawned.seq().to_set(),
                        self@.task_groups.contains_key(task_group@),
                        self@.task_groups[task_group@] == group@,
                        self@.task_waits.contains_key(task_id@),
                        self@.task_waits[task_id@] == (TaskWaitConditionView::AnyN {
                            task_group: task_group@,
                            num_tasks: *num_tasks,
                        }),
                        forall|j: int| 0 <= j < i ==> group.started@.contains(#[trigger] group.spawned.seq()[j]),
                    decreases n - i,
                {
                    if !group.started.contains(group.spawned.get(i)) {
                        proof {
                            let s = group.spawned.seq()[i as int];
                            assert(group.spawned@.contains(s) && !group.started@.contains(s));
                            let g = self@.task_groups[task_group@];
                            assert(g.spawned.contains(s) && !g.started.contains(s));
                            assert(exists|s: usize| #[trigger] g.spawned.contains(s) && !g.started.contains(s));
                            assert(self.progress(task_id@) == unrestricted());
                        }
                        return TaskProgressDependencies::ready();
                    }
                    i = i + 1;
                }
                proof {
                    assert forall|s: usize| #[trigger] group.spawned@.contains(s) implies group.started@.contains(s) by {
                        let j = choose|j: int| 0 <= j < n && group.spawned.seq()[j] == s;
                    }
                }
                if group.completed.len() >= *num_tasks {
                    TaskProgressDependencies::ready()
                } else {
                    TaskProgressDependencies::Blocked
                }
            },
            Some(TaskWaitCondition::Specific { task_group, slot }) => {
                match self.task_groups.get(task_group) {
                    None => TaskProgressDependencies::Blocked,
                    Some(group) => {
                        if group.completed.contains(slot) {
                            TaskProgressDependencies::ready()
                        } else {
                            TaskProgressDependencies::Blocked
                        }
                    },
                }
            },
        }
    }
}

/// A task group was created.
pub struct NewTaskGroup(pub TaskGroup);

/// A task group is no longer used.
pub struct FreeTaskGroup(pub TaskGroup);

/// The task of the slot of the group was spawned.
pub struct TaskSpawned(pub TaskGroup, pub usize);

/// The task of the slot of the group started.
pub struct TaskStarted(pub TaskGroup, pub usize);

/// The task of the slot of the group completed.
pub struct TaskCompleted(pub TaskGroup, pub usize);

/// The task waits for that many tasks of the group to complete.
pub struct TaskWaitAnyN(pub TaskGroup, pub usize);

/// The task waits for the task of the slot of the group to complete.
pub struct TaskWaitNth(pub TaskGroup, pub usize);

/// The task no longer waits.
pub struct TaskWaitCompleted;

impl SyncEvent for NewTaskGroup {
    type Model = TaskWaitModel;
}

impl SyncInitEvent for NewTaskGroup {
    type Model = TaskWaitModel;
}

impl SyncEvent for FreeTaskGroup {
    type Model = TaskWaitModel;
}

impl SyncEvent for TaskSpawned {
    type Model = TaskWaitModel;
}

impl SyncEvent for TaskStarted {
    type Model = TaskWaitModel;
}

impl SyncEvent for TaskCompleted {
    type Model = TaskWaitModel;
}

impl SyncEvent for TaskWaitAnyN {
    type Model = TaskWaitModel;
}

impl SyncEvent for TaskWaitNth {
    type Model = TaskWaitModel;
}

impl SyncEvent for TaskWaitCompleted {
    type Model = TaskWaitModel;
}

impl ProcessSyncEvent<NewTaskGroup> for TaskWaitModel {
    open spec fn handles(
        &self,
        task: u64,
        event: NewTaskGroup,
        after: Self,
        r: Result<NotificationOutcome, BadSyncError>,
    ) -> bool {
        &&& r == Ok::<NotificationOutcome, BadSyncError>(NotificationOutcome::Acknowledged)
        &&& after@.task_groups == self@.task_groups.insert(event.0@, empty_group())
        &&& after@.task_waits == self@.task_waits
    }

    fn on_event(&mut self, task_id: TaskId, event: NewTaskGroup) -> (r: Result<
        NotificationOutcome,
        BadSyncError,
    >)
    {
        self.register_group(event.0);
        Ok(NotificationOutcome::Acknowledged)
    }
}

impl ProcessSyncInitEvent<NewTaskGroup> for TaskWaitModel {
    open spec fn handles_init(&self, event: NewTaskGroup, after: Self, r: Result<NotificationOutcome, BadSyncError>) -> bool {
        &&& r == Ok::<NotificationOutcome, BadSyncError>(NotificationOutcome::Acknowledged)
        &&& after@.task_groups == self@.task_groups.insert(event.0@, empty_group())
        &&& after@.task_waits == self@.task_waits
    }

    fn on_init_event(&mut self, event: NewTaskGroup) -> (r: Result<NotificationOutcome, BadSyncError>)
    {
        self.register_group(event.0);
        Ok(NotificationOutcome::Acknowledged)
    }
}

impl ProcessSyncEvent<FreeTaskGroup> for TaskWaitModel {
    open spec fn handles(
        &self,
        task: u64,
        event: FreeTaskGroup,
        after: Self,
        r: Result<NotificationOutcome, BadSyncError>,
    ) -> bool {
        &&& r == Ok::<NotificationOutcome, BadSyncError>(NotificationOutcome::Acknowledged)
        &&& after@.task_groups == self@.task_groups.remove(event.0@)
        &&& after@.task_waits == self@.task_waits
    }

    fn on_event(&mut self, task_id: TaskId, event: FreeTaskGroup) -> (r: Result<
        NotificationOutcome,
        BadSyncError,
    >)
    {
        let ghost g = self@.task_groups;
        self.task_groups.remove(&event.0);
        proof {
            assert(self@.task_groups =~= g.remove(event.0@));
        }
        Ok(NotificationOutcome::Acknowledged)
    }
}

impl ProcessSyncEvent<TaskSpawned> for TaskWaitModel {
    open spec fn handles(
        &self,
        task: u64,
        event: TaskSpawned,
        after: Self,
        r: Result<NotificationOutcome, BadSyncError>,
    ) -> bool {
        &&& r == Ok::<NotificationOutcome, BadSyncError>(NotificationOutcome::Acknowledged)
        &&& after@.task_groups == groups_with_slot(self@.task_groups, event.0@, event.1, 0)
        &&& after@.task_waits == self@.task_waits
    }

    fn on_event(&mut self, task_id: TaskId, event: TaskSpawned) -> (r: Result<
        NotificationOutcome,
        BadSyncError,
    >)
    {
        self.mark_slot(event.0, event.1, 0);
        Ok(NotificationOutcome::Acknowledged)
    }
}

impl ProcessSyncEvent<TaskStarted> for TaskWaitModel {
    open spec fn handles(
        &self,
        task: u64,
        event: TaskStarted,
        after: Self,
        r: Result<NotificationOutcome, BadSyncError>,
    ) -> bool {
        &&& r == Ok::<NotificationOutcome, BadSyncError>(NotificationOutcome::Acknowledged)
        &&& after@.task_groups == groups_with_slot(self@.task_groups, event.0@, event.1, 1)
        &&& after@.task_waits == self@.task_waits
    }

    fn on_event(&mut self, task_id: TaskId, event: TaskStarted) -> (r: Result<
        NotificationOutcome,
        BadSyncError,
    >)
    {
        self.mark_slot(event.0, event.1, 1);
        Ok(NotificationOutcome::Acknowledged)
    }
}

impl ProcessSyncEvent<TaskCompleted> for TaskWaitModel {
    open spec fn handles(
        &self,
        task: u64,
        event: TaskCompleted,
        after: Self,
        r: Result<NotificationOutcome, BadSyncError>,
    ) -> bool {
        &&& r == Ok::<NotificationOutcome, BadSyncError>(NotificationOutcome::Acknowledged)
        &&& after@.task_groups == groups_with_slot(self@.task_groups, event.0@, event.1, 2)
        &&& after@.task_waits == self@.task_waits
    }

    fn on_event(&mut self, task_id: TaskId, event: TaskCompleted) -> (r: Result<
        NotificationOutcome,
        BadSyncError,
    >)
    {
        self.mark_slot(event.0, event.1, 2);
        Ok(NotificationOutcome::Acknowledged)
    }
}

impl ProcessSyncEvent<TaskWaitAnyN> for TaskWaitModel {
    open spec fn handles(
        &self,
        task: u64,
        event: TaskWaitAnyN,
        after: Self,
        r: Result<NotificationOutcome, BadSyncError>,
    ) -> bool {
        &&& r == Ok::<NotificationOutcome, BadSyncError>(NotificationOutcome::Acknowledged)
        &&& after@.task_waits == self@.task_waits.insert(
            task,
            TaskWaitConditionView::AnyN { task_group: event.0@, num_tasks: event.1 },
        )
        &&& after@.task_groups == self@.task_groups
    }

    fn on_event(&mut self, task_id: TaskId, event: TaskWaitAnyN) -> (r: Result<
        NotificationOutcome,
        BadSyncError,
    >)
    {
        self.set_wait(task_id, TaskWaitCondition::AnyN { task_group: event.0, num_tasks: event.1 });
        Ok(NotificationOutcome::Acknowledged)
    }
}

impl ProcessSyncEvent<TaskWaitNth> for TaskWaitModel {
    open spec fn handles(
        &self,
        task: u64,
        event: TaskWaitNth,
        after: Self,
        r: Result<NotificationOutcome, BadSyncError>,
    ) -> bool {
        &&& r == Ok::<NotificationOutcome, BadSyncError>(NotificationOutcome::Acknowledged)
        &&& after@.task_waits == self@.task_waits.insert(
            task,
            TaskWaitConditionView::Specific { task_group: event.0@, slot: event.1 },
        )
        &&& after@.task_groups == self@.task_groups
    }

    fn on_event(&mut self, task_id: TaskId, event: TaskWaitNth) -> (r: Result<
        NotificationOutcome,
        BadSyncError,
    >)
    {
        self.set_wait(
            task_id,
            TaskWaitCondition::Specific { task_group: event.0, slot: TaskGroupSlotIdx(event.1) },
        );
        Ok(NotificationOutcome::Acknowledged)
    }
}

impl ProcessSyncEvent<TaskWaitCompleted> for TaskWaitModel {
    open spec fn handles(
        &self,
        task: u64,
        event: TaskWaitCompleted,
        after: Self,
        r: Result<NotificationOutcome, BadSyncError>,
    ) -> bool {
        &&& r == Ok::<NotificationOutcome, BadSyncError>(NotificationOutcome::Acknowledged)
        &&& after@.task_waits == self@.task_waits.remove(task)
        &&& after@.task_groups == self@.task_groups
    }

    fn on_event(&mut self, task_id: TaskId, event: TaskWaitCompleted) -> (r: Result<
        NotificationOutcome,
        BadSyncError,
    >)
    {
        let ghost w = self@.task_waits;
        self.task_waits.remove(&task_id);
        proof {
            assert(self@.task_waits =~= w.remove(task_id@));
        }
        Ok(NotificationOutcome::Acknowledged)
    }
}

/// A task whose wait is over can progress.
pub proof fn lemma_task_wait_over(
    m: TaskWaitModel,
    task: u64,
    event: TaskWaitCompleted,
    after: TaskWaitModel,
    r: Result<NotificationOutcome, BadSyncError>,
)
    requires
        m.handles(task, event, after, r),
    ensures
        r is Ok,
        after.progress(task) == unrestricted(),
{
}

/// Once a group is freed, every task that waits on it is blocked.
pub proof fn lemma_task_group_freed(
    m: TaskWaitModel,
    task: u64,
    event: FreeTaskGroup,
    after: TaskWaitModel,
    r: Result<NotificationOutcome, BadSyncError>,
)
    requires
        m.handles(task, event, after, r),
    ensures
        r is Ok,
        forall|t: u64|
            #![trigger after.progress(t)]
            after@.task_waits.contains_key(t) && (match after@.task_waits[t] {
                TaskWaitConditionView::AnyN { task_group, .. } => task_group == event.0@,
                TaskWaitConditionView::Specific { task_group, .. } => task_group == event.0@,
            }) ==> after.progress(t) is None,
{
}

/// What happens to a slot of a group that was never registered (or was
/// freed) changes nothing.
pub proof fn lemma_task_slot_of_unknown_group(
    m: TaskWaitModel,
    task: u64,
    spawned: TaskSpawned,
    started: TaskStarted,
    completed: TaskCompleted,
    after_spawned: TaskWaitModel,
    after_started: TaskWaitModel,
    after_completed: TaskWaitModel,
    r1: Result<NotificationOutcome, BadSyncError>,
    r2: Result<NotificationOutcome, BadSyncError>,
    r3: Result<NotificationOutcome, BadSyncError>,
)
    requires
        m.handles(task, spawned, after_spawned, r1),
        m.handles(task, started, after_started, r2),
        m.handles(task, completed, after_completed, r3),
    ensures
        r1 is Ok && r2 is Ok && r3 is Ok,
        !m@.task_groups.contains_key(spawned.0@) ==> after_spawned@ == m@,
        !m@.task_groups.contains_key(started.0@) ==> after_started@ == m@,
        !m@.task_groups.contains_key(completed.0@) ==> after_completed@ == m@,
{
}

/// A new group starts with no slot spawned, started or completed, and no
/// task's wait changes.
pub proof fn lemma_task_group_new(
    m: TaskWaitModel,
    event: NewTaskGroup,
    after: TaskWaitModel,
    r: Result<NotificationOutcome, BadSyncError>,
)
    requires
        m.handles_init(event, after, r),
    ensures
        r is Ok,
        after@.task_groups[event.0@] == empty_group(),
        after@.task_waits == m@.task_waits,
{
}


/// A task that waits for one slot of a group is blocked unless the group
/// exists and that slot has completed; a slot that was only spawned or
/// started does not end the wait. When it has completed, the task needs
/// nothing.
pub proof fn lemma_task_wait_for_slot(m: TaskWaitModel, task: u64, group: u64, slot: usize)
    requires
        m@.task_waits.contains_key(task),
        m@.task_waits[task] == (TaskWaitConditionView::Specific { task_group: group, slot }),
    ensures
        !(m@.task_groups.contains_key(group) && m@.task_groups[group].completed.contains(slot))
            ==> m.progress(task) is None,
        m@.task_groups.contains_key(group) && m@.task_groups[group].completed.contains(slot)
            ==> m.progress(task) == Some(Set::<u64>::empty()),
{
}

/// A task that waits for `n` tasks of a group is blocked while the group
/// does not exist. It can go on (needing nothing) while a spawned task of
/// the group has not started, or once `n` tasks of the group have
/// completed; otherwise it is blocked.
pub proof fn lemma_task_wait_for_any(m: TaskWaitModel, task: u64, group: u64, n: usize)
    requires
        m@.task_waits.contains_key(task),
        m@.task_waits[task] == (TaskWaitConditionView::AnyN { task_group: group, num_tasks: n }),
    ensures
        !m@.task_groups.contains_key(group) ==> m.progress(task) is None,
        m@.task_groups.contains_key(group) && (exists|s: usize|
            m@.task_groups[group].spawned.contains(s) && !#[trigger] m@.task_groups[group].started.contains(s))
            ==> m.progress(task) == Some(Set::<u64>::empty()),
        m@.task_groups.contains_key(group) && m@.task_groups[group].completed.len() >= n
            ==> m.progress(task) == Some(Set::<u64>::empty()),
        m@.task_groups.contains_key(group) && m@.task_groups[group].completed.len() < n && (forall|s: usize|
            m@.task_groups[group].spawned.contains(s) ==> #[trigger] m@.task_groups[group].started.contains(s))
            ==> m.progress(task) is None,
{
}

/// A task that waits for nothing needs nothing.
pub proof fn lemma_task_wait_none(m: TaskWaitModel, task: u64)
    requires
        !m@.task_waits.contains_key(task),
    ensures
        m.progress(task) == Some(Set::<u64>::empty()),
{
}


/// Marking a slot of a known group spawned, started or completed adds it
/// to that set only; a task that waits for that very slot can go on once it
/// has completed, and not before.
pub proof fn lemma_task_slot_marks(
    m: TaskWaitModel,
    task: u64,
    waiter: u64,
    spawned: TaskSpawned,
    started: TaskStarted,
    completed: TaskCompleted,
    after_spawned: TaskWaitModel,
    after_started: TaskWaitModel,
    after_completed: TaskWaitModel,
    r1: Result<NotificationOutcome, BadSyncError>,
    r2: Result<NotificationOutcome, BadSyncError>,
    r3: Result<NotificationOutcome, BadSyncError>,
)
    requires
        m.handles(task, spawned, after_spawned, r1),
        m.handles(task, started, after_started, r2),
        m.handles(task, completed, after_completed, r3),
    ensures
        m@.task_groups.contains_key(spawned.0@) ==> {
            let (a, b) = (m@.task_groups[spawned.0@], after_spawned@.task_groups[spawned.0@]);
            &&& b.spawned == a.spawned.insert(spawned.1) && b.started == a.started && b.completed == a.completed
        },
        m@.task_groups.contains_key(started.0@) ==> {
            let (a, b) = (m@.task_groups[started.0@], after_started@.task_groups[started.0@]);
            &&& b.started == a.started.insert(started.1) && b.spawned == a.spawned && b.completed == a.completed
        },
        m@.task_groups.contains_key(completed.0@) ==> {
            let (a, b) = (m@.task_groups[completed.0@], after_completed@.task_groups[completed.0@]);
            &&& b.completed == a.completed.insert(completed.1) && b.spawned == a.spawned && b.started == a.started
        },
        m@.task_waits.contains_key(waiter) && m@.task_waits[waiter] == (TaskWaitConditionView::Specific {
            task_group: completed.0@,
            slot: completed.1,
        }) && m@.task_groups.contains_key(completed.0@) ==> after_completed.progress(waiter) == Some(
            Set::<u64>::empty(),
        ),
        m@.task_waits.contains_key(waiter) && m@.task_waits[waiter] == (TaskWaitConditionView::Specific {
            task_group: started.0@,
            slot: started.1,
        }) && m@.task_groups.contains_key(started.0@) && !m@.task_groups[started.0@].completed.contains(started.1)
            ==> after_started.progress(waiter) is None,
{
}

} // verus!
