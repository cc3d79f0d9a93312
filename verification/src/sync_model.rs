//! Models of synchronization primitives.
//!
//! At each scheduling opportunity the scheduler must know which tasks can
//! make progress: a task that waits for a mutex held by another task cannot.
//! Each kind of primitive is described by a sync model, a state machine that
//! is told about synchronization events (a task starts locking a mutex, a
//! task holds it, a task releases it, ...) and that answers, for each task,
//! whether it is blocked or which other tasks must run for it to progress.
//! The registry holds one model of each kind and combines their answers.

use crate::keyed::VecSet;
use crate::sync::join::TaskJoinModel;
use crate::sync::mutex::MutexModel;
use crate::sync::rwlock::RwlockModel;
use crate::sync::start_barrier::BarrierModel;
use crate::sync::task_wait::TaskWaitModel;
use crate::sync::unknown_wait::UnknownWaitModel;
use crate::sync::watch::WatchModel;
use crate::task::{TaskId, TaskSet};
use crate::text::push_str;
use vstd::prelude::*;

verus! {

/// What a sync model answers to an event.
#[derive(Debug, Clone, Copy, PartialEq, Eq, Structural)]
pub enum NotificationOutcome {
    Acknowledged,
    /// A re-schedule may be required if a task becomes blocking without
    /// reaching a suspension point.
    ScheduleRequired,
}

/// Whether a task can make progress.
#[derive(Debug, PartialEq, Eq)]
pub enum TaskProgressDependencies {
    /// The task is ready to be resumed, but the tasks in `need_to_run` must
    /// be running at the same time (for example the holder of the lock that
    /// it waits for, or the other waiters of a barrier).
    Ready { need_to_run: TaskSet },
    /// The task is blocked and will not reach its next suspension point.
    Blocked,
}

impl View for TaskProgressDependencies {
    /// `Some(tasks)` for `Ready`, `None` for `Blocked`.
    type V = Option<Set<u64>>;

    open spec fn view(&self) -> Option<Set<u64>> {
        match self {
            TaskProgressDependencies::Ready { need_to_run } => Some(need_to_run@),
            TaskProgressDependencies::Blocked => None,
        }
    }
}

/// Ready and ready combine to ready with both sets of tasks; a blocked side
/// makes the result blocked.
pub open spec fn merge_progress(a: Option<Set<u64>>, b: Option<Set<u64>>) -> Option<Set<u64>> {
    match (a, b) {
        (Some(x), Some(y)) => Some(x.union(y)),
        _ => None,
    }
}

/// The answer of a model that does not restrict the task.
pub open spec fn unrestricted() -> Option<Set<u64>> {
    Some(Set::<u64>::empty())
}

impl TaskProgressDependencies {
    pub fn ready() -> (r: Self)
        ensures
            r@ == unrestricted(),
    {
        TaskProgressDependencies::Ready { need_to_run: VecSet::new() }
    }

    pub fn merge(self, other: Self) -> (r: Self)
        ensures
            r@ == merge_progress(self@, other@),
    {
        match (self, other) {
            (
                TaskProgressDependencies::Ready { need_to_run: mut t1 },
                TaskProgressDependencies::Ready { need_to_run: t2 },
            ) => {
                t1.union_with(&t2);
                TaskProgressDependencies::Ready { need_to_run: t1 }
            },
            _ => TaskProgressDependencies::Blocked,
        }
    }
}

/// Merging is commutative.
pub proof fn lemma_merge_commutative(a: Option<Set<u64>>, b: Option<Set<u64>>)
    ensures
        merge_progress(a, b) == merge_progress(b, a),
{
    if let (Some(x), Some(y)) = (a, b) {
        assert(x.union(y) =~= y.union(x));
    }
}

/// Merging is associative.
pub proof fn lemma_merge_associative(
    a: Option<Set<u64>>,
    b: Option<Set<u64>>,
    c: Option<Set<u64>>,
)
    ensures
        merge_progress(merge_progress(a, b), c) == merge_progress(a, merge_progress(b, c)),
{
    if let (Some(x), Some(y), Some(z)) = (a, b, c) {
        assert(x.union(y).union(z) =~= x.union(y.union(z)));
    }
}

/// A model that does not restrict a task leaves any answer unchanged, and a
/// blocked answer blocks whatever it is merged with.
pub proof fn lemma_merge_identity_and_absorption(a: Option<Set<u64>>)
    ensures
        merge_progress(unrestricted(), a) == a,
        merge_progress(a, unrestricted()) == a,
        merge_progress(None, a) == None::<Set<u64>>,
        merge_progress(a, None) == None::<Set<u64>>,
{
    if let Some(x) = a {
        assert(Set::<u64>::empty().union(x) =~= x);
        assert(x.union(Set::<u64>::empty()) =~= x);
    }
}

/// A misuse of a synchronization primitive that a model detected.
#[derive(Debug)]
pub struct BadSyncError(pub String);

impl BadSyncError {
    pub fn new(message: &str) -> (r: BadSyncError)
        ensures
            r.0@ == message@,
    {
        BadSyncError(message.to_string())
    }

    /// The error as it is shown: `bad use of SyncModel: ` and the message.
    pub fn describe(&self) -> (r: String)
        ensures
            r@ == "bad use of SyncModel: "@ + self.0@,
    {
        let mut s = "bad use of SyncModel: ".to_string();
        push_str(&mut s, self.0.as_str());
        s
    }
}

/// A model's answer to which tasks a task depends on.
pub trait DynSyncModel {
    /// `Some(tasks)` when the task is ready and needs `tasks` to run with it,
    /// `None` when it is blocked. A model that does not describe its answers
    /// leaves them unspecified.
    closed spec fn progress(&self, task: u64) -> Option<Set<u64>> {
        vstd::pervasive::arbitrary()
    }

    fn task_progress_dependencies(&self, task_id: TaskId) -> (r: TaskProgressDependencies)
        ensures
            r@ == self.progress(task_id@),
    ;
}

/// A model of one kind of synchronization primitive.
pub trait SyncModel: DynSyncModel {
}

/// A model that is told about events of type `E` that a task performs.
pub trait ProcessSyncEvent<E>: SyncModel + Sized {
    /// How the model, told about `event` of task `task`, answers `r` and
    /// becomes `after`. A model that does not describe it claims nothing.
    open spec fn handles(
        &self,
        task: u64,
        event: E,
        after: Self,
        r: Result<NotificationOutcome, BadSyncError>,
    ) -> bool {
        true
    }

    fn on_event(&mut self, task_id: TaskId, event: E) -> (r: Result<NotificationOutcome, BadSyncError>)
        ensures
            old(self).handles(task_id@, event, *final(self), r),
    ;
}

/// A model that is told about events of type `E` that belong to no task,
/// such as the creation of a primitive.
pub trait ProcessSyncInitEvent<E>: SyncModel + Sized {
    /// How the model, told about `event`, answers `r` and becomes `after`. A
    /// model that does not describe it claims nothing.
    open spec fn handles_init(&self, event: E, after: Self, r: Result<NotificationOutcome, BadSyncError>) -> bool {
        true
    }

    fn on_init_event(&mut self, event: E) -> (r: Result<NotificationOutcome, BadSyncError>)
        ensures
            old(self).handles_init(event, *final(self), r),
    ;
}

/// An event that a task performs, with the model that processes it.
pub trait SyncEvent: Sized {
    type Model: ProcessSyncEvent<Self>;
}

/// An event that belongs to no task, with the model that processes it.
pub trait SyncInitEvent: Sized {
    type Model: ProcessSyncInitEvent<Self>;
}


/// The model that no extension registers: it never restricts a task.
impl DynSyncModel for () {
    open spec fn progress(&self, task: u64) -> Option<Set<u64>> {
        unrestricted()
    }

    fn task_progress_dependencies(&self, task_id: TaskId) -> (r: TaskProgressDependencies) {
        TaskProgressDependencies::ready()
    }
}

impl SyncModel for () {
}

/// One model of each kind the library knows, and one more of type `X` that
/// the user of the library provides (`()` when there is none).
pub struct SyncModelRegistry<X> {
    pub join: TaskJoinModel,
    pub mutex: MutexModel,
    pub rwlock: RwlockModel,
    pub barrier: BarrierModel,
    pub task_wait: TaskWaitModel,
    pub unknown_wait: UnknownWaitModel,
    pub watch: WatchModel,
    pub extension: X,
}

/// The place of a model in the registry, so that an event can reach the
/// model that processes it.
pub trait RegistrySlot<X>: SyncModel + Sized {
    /// Whether `slot_of` and `with_slot` describe the place of the model. A
    /// kind that does not describe it claims nothing.
    open spec fn slot_described() -> bool {
        false
    }

    /// The model of this kind in the registry.
    open spec fn slot_of(registry: SyncModelRegistry<X>) -> Self {
        vstd::pervasive::arbitrary()
    }

    /// The registry with `model` in place of its model of this kind.
    open spec fn with_slot(registry: SyncModelRegistry<X>, model: Self) -> SyncModelRegistry<X> {
        vstd::pervasive::arbitrary()
    }

    fn slot(registry: &mut SyncModelRegistry<X>) -> (r: &mut Self)
        ensures
            Self::slot_described() ==> *r == Self::slot_of(*old(registry)) && *final(registry)
                == Self::with_slot(*old(registry), *final(r)),
    ;
}

impl<X> RegistrySlot<X> for TaskJoinModel {
    open spec fn slot_described() -> bool {
        true
    }

    open spec fn slot_of(registry: SyncModelRegistry<X>) -> Self {
        registry.join
    }

    open spec fn with_slot(registry: SyncModelRegistry<X>, model: Self) -> SyncModelRegistry<X> {
        SyncModelRegistry { join: model, ..registry }
    }

    fn slot(registry: &mut SyncModelRegistry<X>) -> (r: &mut Self) {
        &mut registry.join
    }
}

impl<X> RegistrySlot<X> for MutexModel {
    open spec fn slot_described() -> bool {
        true
    }

    open spec fn slot_of(registry: SyncModelRegistry<X>) -> Self {
        registry.mutex
    }

    open spec fn with_slot(registry: SyncModelRegistry<X>, model: Self) -> SyncModelRegistry<X> {
        SyncModelRegistry { mutex: model, ..registry }
    }

    fn slot(registry: &mut SyncModelRegistry<X>) -> (r: &mut Self) {
        &mut registry.mutex
    }
}

impl<X> RegistrySlot<X> for RwlockModel {
    open spec fn slot_described() -> bool {
        true
    }

    open spec fn slot_of(registry: SyncModelRegistry<X>) -> Self {
        registry.rwlock
    }

    open spec fn with_slot(registry: SyncModelRegistry<X>, model: Self) -> SyncModelRegistry<X> {
        SyncModelRegistry { rwlock: model, ..registry }
    }

    fn slot(registry: &mut SyncModelRegistry<X>) -> (r: &mut Self) {
        &mut registry.rwlock
    }
}

impl<X> RegistrySlot<X> for BarrierModel {
    open spec fn slot_described() -> bool {
        true
    }

    open spec fn slot_of(registry: SyncModelRegistry<X>) -> Self {
        registry.barrier
    }

    open spec fn with_slot(registry: SyncModelRegistry<X>, model: Self) -> SyncModelRegistry<X> {
        SyncModelRegistry { barrier: model, ..registry }
    }

    fn slot(registry: &mut SyncModelRegistry<X>) -> (r: &mut Self) {
        &mut registry.barrier
    }
}

impl<X> RegistrySlot<X> for TaskWaitModel {
    open spec fn slot_described() -> bool {
        true
    }

    open spec fn slot_of(registry: SyncModelRegistry<X>) -> Self {
        registry.task_wait
    }

    open spec fn with_slot(registry: SyncModelRegistry<X>, model: Self) -> SyncModelRegistry<X> {
        SyncModelRegistry { task_wait: model, ..registry }
    }

    fn slot(registry: &mut SyncModelRegistry<X>) -> (r: &mut Self) {
        &mut registry.task_wait
    }
}

impl<X> RegistrySlot<X> for UnknownWaitModel {
    open spec fn slot_described() -> bool {
        true
    }

    open spec fn slot_of(registry: SyncModelRegistry<X>) -> Self {
        registry.unknown_wait
    }

    open spec fn with_slot(registry: SyncModelRegistry<X>, model: Self) -> SyncModelRegistry<X> {
        SyncModelRegistry { unknown_wait: model, ..registry }
    }

    fn slot(registry: &mut SyncModelRegistry<X>) -> (r: &mut Self) {
        &mut registry.unknown_wait
    }
}

impl<X> RegistrySlot<X> for WatchModel {
    open spec fn slot_described() -> bool {
        true
    }

    open spec fn slot_of(registry: SyncModelRegistry<X>) -> Self {
        registry.watch
    }

    open spec fn with_slot(registry: SyncModelRegistry<X>, model: Self) -> SyncModelRegistry<X> {
        SyncModelRegistry { watch: model, ..registry }
    }

    fn slot(registry: &mut SyncModelRegistry<X>) -> (r: &mut Self) {
        &mut registry.watch
    }
}

impl SyncModelRegistry<()> {
    /// A registry with no extension model.
    pub fn new() -> (r: Self)
        ensures
            r.is_fresh(),
    {
        SyncModelRegistry::with_extension(())
    }
}

impl<X> SyncModelRegistry<X> {
    /// Every model of the library is in its initial state.
    pub open spec fn is_fresh(&self) -> bool {
        &&& self.join@ == Set::<u64>::empty()
        &&& self.mutex@.held_by == Map::<Seq<char>, u64>::empty()
        &&& self.mutex@.waiting == Map::<u64, Set<Seq<char>>>::empty()
        &&& self.rwlock@.held_by.is_empty()
        &&& self.rwlock@.waiting.is_empty()
        &&& self.barrier@.task_waiting.is_empty()
        &&& self.barrier@.barriers.is_empty()
        &&& self.task_wait@.task_groups.is_empty()
        &&& self.task_wait@.task_waits.is_empty()
        &&& self.unknown_wait@ == Set::<u64>::empty()
        &&& self.watch@.tasks.is_empty()
        &&& self.watch@.waiters.is_empty()
    }

    pub fn with_extension(extension: X) -> (r: Self)
        ensures
            r.is_fresh(),
            r.extension == extension,
    {
        SyncModelRegistry {
            join: TaskJoinModel::new(),
            mutex: MutexModel::new(),
            rwlock: RwlockModel::new(),
            barrier: BarrierModel::new(),
            task_wait: TaskWaitModel::new(),
            unknown_wait: UnknownWaitModel::new(),
            watch: WatchModel::new(),
            extension,
        }
    }

    /// Hands the event to the model that processes it; the other models are
    /// left as they are.
    pub fn on_notified<E: SyncEvent>(&mut self, task_id: TaskId, event: E) -> (r: Result<
        NotificationOutcome,
        BadSyncError,
    >) where E::Model: RegistrySlot<X>
        ensures
            E::Model::slot_described() ==> exists|m: E::Model|
                *final(self) == #[trigger] E::Model::with_slot(*old(self), m) && E::Model::slot_of(
                    *old(self),
                ).handles(task_id@, event, m, r),
    {
        let slot = E::Model::slot(self);
        slot.on_event(task_id, event)
    }

    /// Hands the event to the model that processes it; the other models are
    /// left as they are.
    pub fn on_init_event<E: SyncInitEvent>(&mut self, event: E) -> (r: Result<
        NotificationOutcome,
        BadSyncError,
    >) where E::Model: RegistrySlot<X>
        ensures
            E::Model::slot_described() ==> exists|m: E::Model|
                *final(self) == #[trigger] E::Model::with_slot(*old(self), m) && E::Model::slot_of(
                    *old(self),
                ).handles_init(event, m, r),
    {
        let slot = E::Model::slot(self);
        slot.on_init_event(event)
    }
}

impl<X: DynSyncModel> DynSyncModel for SyncModelRegistry<X> {
    /// The answers of all the models, merged.
    open spec fn progress(&self, task: u64) -> Option<Set<u64>> {
        merge_progress(
            self.join.progress(task),
            merge_progress(
                self.mutex.progress(task),
                merge_progress(
                    self.rwlock.progress(task),
                    merge_progress(
                        self.barrier.progress(task),
                        merge_progress(
                            self.task_wait.progress(task),
                            merge_progress(
                                self.unknown_wait.progress(task),
                                merge_progress(
                                    self.watch.progress(task),
                                    self.extension.progress(task),
                                ),
                            ),
                        ),
                    ),
                ),
            ),
        )
    }

    fn task_progress_dependencies(&self, task_id: TaskId) -> (r: TaskProgressDependencies) {
        let d = self.watch.task_progress_dependencies(task_id).merge(
            self.extension.task_progress_dependencies(task_id),
        );
        let d = self.unknown_wait.task_progress_dependencies(task_id).merge(d);
        let d = self.task_wait.task_progress_dependencies(task_id).merge(d);
        let d = self.barrier.task_progress_dependencies(task_id).merge(d);
        let d = self.rwlock.task_progress_dependencies(task_id).merge(d);
        let d = self.mutex.task_progress_dependencies(task_id).merge(d);
        self.join.task_progress_dependencies(task_id).merge(d)
    }
}

/// The registry blocks a task exactly when some model blocks it; otherwise
/// the task needs exactly the tasks that some model says it needs.
pub proof fn lemma_registry_progress<X: DynSyncModel>(reg: SyncModelRegistry<X>, task: u64)
    ensures
        reg.progress(task) is None <==> {
            ||| reg.join.progress(task) is None
            ||| reg.mutex.progress(task) is None
            ||| reg.rwlock.progress(task) is None
            ||| reg.barrier.progress(task) is None
            ||| reg.task_wait.progress(task) is None
            ||| reg.unknown_wait.progress(task) is None
            ||| reg.watch.progress(task) is None
            ||| reg.extension.progress(task) is None
        },
        forall|u: u64|
            #![trigger reg.progress(task).unwrap().contains(u)]
            reg.progress(task) is Some ==> (reg.progress(task).unwrap().contains(u) <==> {
                ||| reg.join.progress(task).unwrap().contains(u)
                ||| reg.mutex.progress(task).unwrap().contains(u)
                ||| reg.rwlock.progress(task).unwrap().contains(u)
                ||| reg.barrier.progress(task).unwrap().contains(u)
                ||| reg.task_wait.progress(task).unwrap().contains(u)
                ||| reg.unknown_wait.progress(task).unwrap().contains(u)
                ||| reg.watch.progress(task).unwrap().contains(u)
                ||| reg.extension.progress(task).unwrap().contains(u)
            }),
{
}

} // verus!
