//! Lock domains: an earlier design of the knowledge of locks that the
//! scheduler needs.
//!
//! Each suspension point carries a sync operation; a sync domain tracks the
//! state the operations act on. When the scheduler considers a task, it asks
//! the domain whether the task can make progress with its operation
//! (`is_task_runnable`), and when it picks the task it tells the domain
//! (`task_selected_for_running`), which then takes the operation as done.

use crate::keyed::{Key, VecMap, value_views};
use crate::lock_model::mutex::{MutexOperation, MutexState};
use crate::lock_model::rwlock::{HeldRwlockOpView, RwlockOperation, RwlockState};
use crate::task::TaskId;
use crate::text::{decimal, push_decimal, push_str};
use vstd::prelude::*;

verus! {

/// A misuse of a lock domain.
#[derive(Debug)]
pub struct BadSyncError(pub String);

impl BadSyncError {
    /// The text that describes the misuse.
    pub fn describe(&self) -> (r: String)
        ensures
            r@ == "bad use of SyncDomain: "@ + self.0@,
    {
        let mut s = String::new();
        push_str(&mut s, "bad use of SyncDomain: ");
        push_str(&mut s, self.0.as_str());
        s
    }
}

/// How a task is written in messages (its `Debug` form).
pub open spec fn task_debug(task: u64) -> Seq<char> {
    "TaskId("@ + decimal(task as nat) + ")"@
}

pub(crate) fn push_task_debug(s: &mut String, task: TaskId)
    ensures
        final(s)@ == old(s)@ + task_debug(task@),
{
    push_str(s, "TaskId(");
    push_decimal(s, task.get());
    push_str(s, ")");
    proof {
        assert(final(s)@ =~= old(s)@ + task_debug(task@));
    }
}

/// The state that the operations of a domain act on.
pub trait SyncDomain: Sized + View {
    type SyncOperation: View;

    /// Whether `runnable_spec` and `selected_spec` describe the domain. A
    /// domain that does not describe itself claims nothing.
    open spec fn domain_described() -> bool {
        false
    }

    /// Whether the task makes progress with the operation in this state.
    open spec fn runnable_spec(state: Self::V, task: u64, op: <Self::SyncOperation as View>::V) -> bool {
        vstd::pervasive::arbitrary()
    }

    /// The state once the task is selected with the operation, and whether
    /// the selection was a correct use.
    open spec fn selected_spec(
        state: Self::V,
        task: u64,
        op: <Self::SyncOperation as View>::V,
    ) -> (Self::V, bool) {
        vstd::pervasive::arbitrary()
    }

    fn is_task_runnable(&self, task: TaskId, op: &Self::SyncOperation) -> (r: bool)
        ensures
            Self::domain_described() ==> r == Self::runnable_spec(self@, task@, op@),
    ;

    fn task_selected_for_running(&mut self, task: TaskId, op: &Self::SyncOperation) -> (r: Result<
        (),
        BadSyncError,
    >)
        ensures
            Self::domain_described() ==> final(self)@ == Self::selected_spec(old(self)@, task@, op@).0,
            Self::domain_described() ==> (r is Ok == Self::selected_spec(old(self)@, task@, op@).1),
    ;
}

/// An operation, with the domain whose state it acts on.
pub trait SyncOperation: View + Sized {
    type Domain: SyncDomain<SyncOperation = Self>;
}

/// Locks identified by name, each held by at most one task.
#[derive(Debug)]
pub struct InMemoryLocks {
    pub(crate) lock_held_by: VecMap<LockName, TaskId>,
}

/// The name of a lock.
#[derive(Debug)]
pub struct LockName(pub(crate) String);

impl View for LockName {
    type V = Seq<char>;

    closed spec fn view(&self) -> Seq<char> {
        self.0@
    }
}

impl LockName {
    pub fn new(name: &String) -> (r: Self)
        ensures
            r@ == name@,
    {
        LockName(name.clone())
    }
}

impl Key for LockName {
    fn same_key(&self, other: &Self) -> (r: bool) {
        self.0 == other.0
    }

    fn copy_key(&self) -> (r: Self) {
        LockName(self.0.clone())
    }
}

/// The operations on locks that are held by one task at a time.
pub enum LockOperation {
    Acquire(String),
    Release(String),
}

pub enum LockOperationView {
    Acquire(Seq<char>),
    Release(Seq<char>),
}

impl View for LockOperation {
    type V = LockOperationView;

    open spec fn view(&self) -> LockOperationView {
        match self {
            LockOperation::Acquire(l) => LockOperationView::Acquire(l@),
            LockOperation::Release(l) => LockOperationView::Release(l@),
        }
    }
}

impl View for InMemoryLocks {
    type V = Map<Seq<char>, u64>;

    closed spec fn view(&self) -> Map<Seq<char>, u64> {
        value_views(self.lock_held_by@)
    }
}

impl InMemoryLocks {
    pub fn new() -> (r: Self)
        ensures
            r@ == Map::<Seq<char>, u64>::empty(),
    {
        let r = InMemoryLocks { lock_held_by: VecMap::new() };
        proof {
            assert(r@ =~= Map::<Seq<char>, u64>::empty());
        }
        r
    }
}

/// An exclusive lock can be acquired when nobody holds it.
pub open spec fn exclusive_runnable(held: Map<Seq<char>, u64>, op: LockOperationView) -> bool {
    match op {
        LockOperationView::Acquire(l) => !held.contains_key(l),
        LockOperationView::Release(_) => true,
    }
}

/// Acquiring takes the lock for the task (a misuse if somebody held it);
/// releasing frees it (a misuse unless the task held it).
pub open spec fn exclusive_selected(
    held: Map<Seq<char>, u64>,
    task: u64,
    op: LockOperationView,
) -> (Map<Seq<char>, u64>, bool) {
    match op {
        LockOperationView::Acquire(l) => (held.insert(l, task), !held.contains_key(l)),
        LockOperationView::Release(l) => (
            held.remove(l),
            held.contains_key(l) && held[l] == task,
        ),
    }
}

/// An exclusive lock that nobody holds can be acquired: the acquisition is
/// accepted, the task then holds the lock and no acquisition of it is
/// runnable, and its release is accepted and frees the lock again.
pub proof fn lemma_exclusive_lock_cycle(held: Map<Seq<char>, u64>, task: u64, lock: Seq<char>)
    requires
        !held.contains_key(lock),
    ensures
        exclusive_runnable(held, LockOperationView::Acquire(lock)),
        exclusive_selected(held, task, LockOperationView::Acquire(lock)).1,
        !exclusive_runnable(
            exclusive_selected(held, task, LockOperationView::Acquire(lock)).0,
            LockOperationView::Acquire(lock),
        ),
        exclusive_selected(
            exclusive_selected(held, task, LockOperationView::Acquire(lock)).0,
            task,
            LockOperationView::Release(lock),
        ) == (held, true),
{
    assert(held.insert(lock, task).remove(lock) =~= held);
}

/// An exclusive lock can be acquired exactly when nobody holds it; once
/// acquired, the task holds it (a misuse if somebody held it). A release is
/// always runnable, frees the lock, and is a correct use exactly when the
/// task held it. No other lock changes.
pub proof fn lemma_exclusive_lock_rules(held: Map<Seq<char>, u64>, task: u64, lock: Seq<char>)
    ensures
        exclusive_runnable(held, LockOperationView::Acquire(lock)) <==> !held.contains_key(lock),
        exclusive_runnable(held, LockOperationView::Release(lock)),
        ({
            let (h, ok) = exclusive_selected(held, task, LockOperationView::Acquire(lock));
            &&& h.contains_key(lock) && h[lock] == task
            &&& ok <==> !held.contains_key(lock)
            &&& forall|l: Seq<char>| l != lock ==> (#[trigger] h.contains_key(l) == held.contains_key(l) && h[l] == held[l])
        }),
        ({
            let (h, ok) = exclusive_selected(held, task, LockOperationView::Release(lock));
            &&& !h.contains_key(lock)
            &&& ok <==> held.contains_key(lock) && held[lock] == task
            &&& forall|l: Seq<char>| l != lock ==> (#[trigger] h.contains_key(l) == held.contains_key(l) && h[l] == held[l])
        }),
{
}

/// The message of a misuse of an exclusive lock.
pub open spec fn exclusive_error(held: Map<Seq<char>, u64>, task: u64, op: LockOperationView) -> Seq<
    char,
> {
    match op {
        LockOperationView::Acquire(l) => "lock is held by task "@ + decimal(held[l] as nat),
        LockOperationView::Release(l) => if held.contains_key(l) {
            "lock was not held by "@ + decimal(task as nat) + " but rather Some("@ + task_debug(
                held[l],
            ) + ")"@
        } else {
            "lock was not held by "@ + decimal(task as nat) + " but rather None"@
        },
    }
}

/// The state change and result of an exclusive lock operation.
pub(crate) fn exclusive_select(
    held: &mut VecMap<LockName, TaskId>,
    task: TaskId,
    op: &LockOperation,
) -> (r: Result<(), BadSyncError>)
    ensures
        value_views(final(held)@) == exclusive_selected(value_views(old(held)@), task@, op@).0,
        r is Ok == exclusive_selected(value_views(old(held)@), task@, op@).1,
        r matches Err(e) ==> e.0@ == exclusive_error(value_views(old(held)@), task@, op@),
{
    let ghost h = value_views(held@);
    match op {
        LockOperation::Acquire(lock_id) => {
            let was_held_by = held.insert(LockName::new(lock_id), task);
            proof {
                assert(value_views(held@) =~= h.insert(lock_id@, task@));
            }
            match was_held_by {
                Some(was_held_by) => {
                    let mut s = String::new();
                    push_str(&mut s, "lock is held by task ");
                    push_decimal(&mut s, was_held_by.get());
                    Err(BadSyncError(s))
                },
                None => Ok(()),
            }
        },
        LockOperation::Release(lock_id) => {
            let was_held_by = held.remove(&LockName::new(lock_id));
            proof {
                assert(value_views(held@) =~= h.remove(lock_id@));
            }
            match was_held_by {
                Some(holder) => {
                    if holder.same_key(&task) {
                        Ok(())
                    } else {
                        let mut s = String::new();
                        push_str(&mut s, "lock was not held by ");
                        push_decimal(&mut s, task.get());
                        push_str(&mut s, " but rather Some(");
                        push_task_debug(&mut s, holder);
                        push_str(&mut s, ")");
                        proof {
                            assert(s@ =~= exclusive_error(h, task@, op@));
                        }
                        Err(BadSyncError(s))
                    }
                },
                None => {
                    let mut s = String::new();
                    push_str(&mut s, "lock was not held by ");
                    push_decimal(&mut s, task.get());
                    push_str(&mut s, " but rather None");
                    proof {
                        assert(s@ =~= exclusive_error(h, task@, op@));
                    }
                    Err(BadSyncError(s))
                },
            }
        },
    }
}

impl SyncDomain for InMemoryLocks {
    type SyncOperation = LockOperation;

    open spec fn domain_described() -> bool {
        true
    }

    open spec fn runnable_spec(state: Map<Seq<char>, u64>, task: u64, op: LockOperationView) -> bool {
        exclusive_runnable(state, op)
    }

    open spec fn selected_spec(state: Map<Seq<char>, u64>, task: u64, op: LockOperationView) -> (
        Map<Seq<char>, u64>,
        bool,
    ) {
        exclusive_selected(state, task, op)
    }

    fn is_task_runnable(&self, task: TaskId, op: &LockOperation) -> (r: bool) {
        match op {
            LockOperation::Acquire(lock_id) => !self.lock_held_by.contains_key(
                &LockName::new(lock_id),
            ),
            LockOperation::Release(_) => true,
        }
    }

    fn task_selected_for_running(&mut self, task: TaskId, op: &LockOperation) -> (r: Result<
        (),
        BadSyncError,
    >)
        ensures
            r matches Err(e) ==> e.0@ == exclusive_error(old(self)@, task@, op@),
    {
        exclusive_select(&mut self.lock_held_by, task, op)
    }
}

impl SyncOperation for LockOperation {
    type Domain = InMemoryLocks;
}

/// The state of the lock domains: one of each kind the library knows, and
/// one more of type `X` that the user of the library provides (`()` when
/// there is none).
pub struct ErasedLocks<X> {
    pub in_memory: InMemoryLocks,
    pub mutex: MutexState,
    pub rwlock: RwlockState,
    pub extension: X,
}

pub struct ErasedLocksView<E> {
    pub in_memory: Map<Seq<char>, u64>,
    pub mutex: Map<Seq<char>, u64>,
    pub rwlock: Map<Seq<char>, HeldRwlockOpView>,
    pub extension: E,
}

impl<X: View> View for ErasedLocks<X> {
    type V = ErasedLocksView<X::V>;

    open spec fn view(&self) -> ErasedLocksView<X::V> {
        ErasedLocksView {
            in_memory: self.in_memory@,
            mutex: self.mutex@,
            rwlock: self.rwlock@,
            extension: self.extension@,
        }
    }
}

/// Where a domain's state is kept.
#[derive(PartialEq, Eq, Structural)]
pub enum DomainPlace {
    InMemory,
    Mutex,
    Rwlock,
    Extension,
}

/// The states of the domains other than the one at `place` are the same in
/// `a` and `b`.
pub open spec fn others_kept<E>(place: DomainPlace, a: ErasedLocksView<E>, b: ErasedLocksView<E>) -> bool {
    &&& place != DomainPlace::InMemory ==> b.in_memory == a.in_memory
    &&& place != DomainPlace::Mutex ==> b.mutex == a.mutex
    &&& place != DomainPlace::Rwlock ==> b.rwlock == a.rwlock
    &&& place != DomainPlace::Extension ==> b.extension == a.extension
}

/// The place of a domain among all domains.
pub trait DomainSlot<X: View>: SyncDomain {
    /// Whether `place`, `slot_of` and `with_slot` describe where `slot`
    /// finds the domain. A domain that does not describe it claims nothing.
    open spec fn slot_described() -> bool {
        false
    }

    /// Where the domain's state is kept.
    open spec fn place() -> DomainPlace {
        DomainPlace::Extension
    }

    /// The domain's state among all states.
    open spec fn slot_of(locks: ErasedLocksView<X::V>) -> Self::V {
        vstd::pervasive::arbitrary()
    }

    /// All states, with `state` in place of the domain's.
    open spec fn with_slot(locks: ErasedLocksView<X::V>, state: Self::V) -> ErasedLocksView<X::V> {
        vstd::pervasive::arbitrary()
    }

    fn slot(locks: &ErasedLocks<X>) -> (r: &Self)
        ensures
            Self::slot_described() ==> r@ == Self::slot_of(locks@),
    ;

    /// The domain's state, to change in place; the other domains' states
    /// are left as they are.
    fn slot_mut(locks: &mut ErasedLocks<X>) -> (r: &mut Self)
        ensures
            Self::slot_described() ==> {
                &&& r@ == Self::slot_of(old(locks)@)
                &&& final(locks)@ == Self::with_slot(old(locks)@, final(r)@)
                &&& others_kept(Self::place(), old(locks)@, final(locks)@)
                &&& Self::slot_of(final(locks)@) == final(r)@
            },
    ;
}

impl<X: View> DomainSlot<X> for InMemoryLocks {
    open spec fn slot_described() -> bool {
        true
    }

    open spec fn place() -> DomainPlace {
        DomainPlace::InMemory
    }

    open spec fn slot_of(locks: ErasedLocksView<X::V>) -> Map<Seq<char>, u64> {
        locks.in_memory
    }

    open spec fn with_slot(locks: ErasedLocksView<X::V>, state: Map<Seq<char>, u64>) -> ErasedLocksView<X::V> {
        ErasedLocksView { in_memory: state, ..locks }
    }

    fn slot(locks: &ErasedLocks<X>) -> (r: &Self) {
        &locks.in_memory
    }

    fn slot_mut(locks: &mut ErasedLocks<X>) -> (r: &mut Self) {
        &mut locks.in_memory
    }
}

impl<X: View> DomainSlot<X> for MutexState {
    open spec fn slot_described() -> bool {
        true
    }

    open spec fn place() -> DomainPlace {
        DomainPlace::Mutex
    }

    open spec fn slot_of(locks: ErasedLocksView<X::V>) -> Map<Seq<char>, u64> {
        locks.mutex
    }

    open spec fn with_slot(locks: ErasedLocksView<X::V>, state: Map<Seq<char>, u64>) -> ErasedLocksView<X::V> {
        ErasedLocksView { mutex: state, ..locks }
    }

    fn slot(locks: &ErasedLocks<X>) -> (r: &Self) {
        &locks.mutex
    }

    fn slot_mut(locks: &mut ErasedLocks<X>) -> (r: &mut Self) {
        &mut locks.mutex
    }
}

impl<X: View> DomainSlot<X> for RwlockState {
    open spec fn slot_described() -> bool {
        true
    }

    open spec fn place() -> DomainPlace {
        DomainPlace::Rwlock
    }

    open spec fn slot_of(locks: ErasedLocksView<X::V>) -> Map<Seq<char>, HeldRwlockOpView> {
        locks.rwlock
    }

    open spec fn with_slot(
        locks: ErasedLocksView<X::V>,
        state: Map<Seq<char>, HeldRwlockOpView>,
    ) -> ErasedLocksView<X::V> {
        ErasedLocksView { rwlock: state, ..locks }
    }

    fn slot(locks: &ErasedLocks<X>) -> (r: &Self) {
        &locks.rwlock
    }

    fn slot_mut(locks: &mut ErasedLocks<X>) -> (r: &mut Self) {
        &mut locks.rwlock
    }
}

impl ErasedLocks<()> {
    /// The domains of the library, each with no lock held, and no other.
    pub fn new() -> (r: Self)
        ensures
            r@.in_memory == Map::<Seq<char>, u64>::empty(),
            r@.mutex == Map::<Seq<char>, u64>::empty(),
            r@.rwlock == Map::<Seq<char>, HeldRwlockOpView>::empty(),
    {
        ErasedLocks::with_extension(())
    }
}

impl<X: View> ErasedLocks<X> {
    /// The domains of the library, each with no lock held, and the user's
    /// domain in the state given.
    pub fn with_extension(extension: X) -> (r: Self)
        ensures
            r@.in_memory == Map::<Seq<char>, u64>::empty(),
            r@.mutex == Map::<Seq<char>, u64>::empty(),
            r@.rwlock == Map::<Seq<char>, HeldRwlockOpView>::empty(),
            r.extension == extension,
    {
        ErasedLocks {
            in_memory: InMemoryLocks::new(),
            mutex: MutexState::new(),
            rwlock: RwlockState::new(),
            extension,
        }
    }

    /// Whether the task makes progress with the operation, in the domain of
    /// the operation; no state changes.
    pub fn is_task_runnable<D, L>(&mut self, task_id: TaskId, operation: &L) -> (r: bool) where
        D: DomainSlot<X, SyncOperation = L>,
        L: SyncOperation<Domain = D>,

        ensures
            D::slot_described() && D::domain_described() ==> r == D::runnable_spec(
                D::slot_of(old(self)@),
                task_id@,
                operation@,
            ),
            *final(self) == *old(self),
    {
        D::slot(self).is_task_runnable(task_id, operation)
    }

    /// Tells the domain of the operation that the task was selected: that
    /// domain's state is updated as the domain says, and no other domain's
    /// state changes.
    pub fn task_selected_for_running<D, L>(&mut self, task_id: TaskId, operation: &L) -> (r: Result<
        (),
        BadSyncError,
    >) where D: DomainSlot<X, SyncOperation = L>, L: SyncOperation<Domain = D>,

        ensures
            D::slot_described() ==> {
                &&& final(self)@ == D::with_slot(old(self)@, D::slot_of(final(self)@))
                &&& others_kept(D::place(), old(self)@, final(self)@)
            },
            D::slot_described() && D::domain_described() ==> {
                &&& D::slot_of(final(self)@) == D::selected_spec(D::slot_of(old(self)@), task_id@, operation@).0
                &&& (r is Ok == D::selected_spec(D::slot_of(old(self)@), task_id@, operation@).1)
            },
    {
        D::slot_mut(self).task_selected_for_running(task_id, operation)
    }
}

} // verus!
