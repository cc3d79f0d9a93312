//! Read-write locks identified by name: held for reading by any number of
//! tasks, or for writing by one.

use crate::keyed::{Key, VecMap, value_views};
use crate::locks::{BadSyncError, LockName, SyncDomain, SyncOperation, push_task_debug, task_debug};
use crate::task::TaskId;
use crate::text::{decimal, push_decimal, push_str};
use vstd::prelude::*;

verus! {

broadcast use vstd::seq_lib::group_seq_properties;

/// Who holds a read-write lock. Readers are listed in the order they took
/// the lock; a task that reads twice is listed twice.
#[derive(Debug)]
pub enum HeldRwlockOp {
    Read(Vec<TaskId>),
    Write(TaskId),
}

pub enum HeldRwlockOpView {
    Read(Seq<u64>),
    Write(u64),
}

impl View for HeldRwlockOp {
    type V = HeldRwlockOpView;

    open spec fn view(&self) -> HeldRwlockOpView {
        match self {
            HeldRwlockOp::Read(tasks) => HeldRwlockOpView::Read(tasks@.map_values(|t: TaskId| t@)),
            HeldRwlockOp::Write(task) => HeldRwlockOpView::Write(task@),
        }
    }
}

/// Who holds each held read-write lock.
#[derive(Debug)]
pub struct RwlockState {
    pub(crate) lock_held_by: VecMap<LockName, HeldRwlockOp>,
}

impl View for RwlockState {
    type V = Map<Seq<char>, HeldRwlockOpView>;

    closed spec fn view(&self) -> Map<Seq<char>, HeldRwlockOpView> {
        value_views(self.lock_held_by@)
    }
}

impl RwlockState {
    pub fn new() -> (r: Self)
        ensures
            r@ == Map::<Seq<char>, HeldRwlockOpView>::empty(),
    {
        let r = RwlockState { lock_held_by: VecMap::new() };
        proof {
            assert(r@ =~= Map::<Seq<char>, HeldRwlockOpView>::empty());
        }
        r
    }
}

impl Default for RwlockState {
    fn default() -> (r: Self)
        ensures
            r@ == Map::<Seq<char>, HeldRwlockOpView>::empty(),
    {
        RwlockState::new()
    }
}

/// An operation on a read-write lock.
#[derive(Debug)]
pub enum RwlockOperation {
    AcquireRead(String),
    AcquireWrite(String),
    Release(String),
}

pub enum RwlockOperationView {
    AcquireRead(Seq<char>),
    AcquireWrite(Seq<char>),
    Release(Seq<char>),
}

impl View for RwlockOperation {
    type V = RwlockOperationView;

    open spec fn view(&self) -> RwlockOperationView {
        match self {
            RwlockOperation::AcquireRead(l) => RwlockOperationView::AcquireRead(l@),
            RwlockOperation::AcquireWrite(l) => RwlockOperationView::AcquireWrite(l@),
            RwlockOperation::Release(l) => RwlockOperationView::Release(l@),
        }
    }
}

/// Reading needs no writer; writing needs no holder; releasing always
/// proceeds.
pub open spec fn rwlock_op_runnable(
    held: Map<Seq<char>, HeldRwlockOpView>,
    op: RwlockOperationView,
) -> bool {
    match op {
        RwlockOperationView::AcquireRead(l) => !held.contains_key(l) || held[l] is Read,
        RwlockOperationView::AcquireWrite(l) => !held.contains_key(l),
        RwlockOperationView::Release(_) => true,
    }
}

/// The position of the first occurrence of `t` in `s`.
#[verifier::opaque]
pub open spec fn first_index(s: Seq<u64>, t: u64) -> int {
    choose|i: int| 0 <= i < s.len() && s[i] == t && forall|j: int| 0 <= j < i ==> s[j] != t
}

/// The tasks as they are written in messages: `[TaskId(1), TaskId(2)]`.
pub open spec fn tasks_debug(s: Seq<u64>) -> Seq<char> {
    "["@ + tasks_debug_items(s) + "]"@
}

pub open spec fn tasks_debug_items(s: Seq<u64>) -> Seq<char>
    decreases s.len(),
{
    if s.len() == 0 {
        Seq::empty()
    } else if s.len() == 1 {
        task_debug(s[0])
    } else {
        tasks_debug_items(s.drop_last()) + ", "@ + task_debug(s.last())
    }
}

/// A holder as it is written in messages.
pub open spec fn holder_debug(h: HeldRwlockOpView) -> Seq<char> {
    match h {
        HeldRwlockOpView::Read(tasks) => "Read("@ + tasks_debug(tasks) + ")"@,
        HeldRwlockOpView::Write(task) => "Write("@ + task_debug(task) + ")"@,
    }
}

/// The holders once the task is selected with the operation: `Ok` with the
/// new holders, or `Err` with the message of the misuse (the holders are then
/// unchanged).
pub open spec fn rwlock_op_selected(
    held: Map<Seq<char>, HeldRwlockOpView>,
    task: u64,
    op: RwlockOperationView,
) -> Result<Map<Seq<char>, HeldRwlockOpView>, Seq<char>> {
    match op {
        RwlockOperationView::AcquireRead(l) => if !held.contains_key(l) {
            Ok(held.insert(l, HeldRwlockOpView::Read(seq![task])))
        } else {
            match held[l] {
                HeldRwlockOpView::Read(tasks) => Ok(
                    held.insert(l, HeldRwlockOpView::Read(tasks.push(task))),
                ),
                HeldRwlockOpView::Write(holder) => Err(
                    "rwlock is held by "@ + decimal(holder as nat),
                ),
            }
        },
        RwlockOperationView::AcquireWrite(l) => if !held.contains_key(l) {
            Ok(held.insert(l, HeldRwlockOpView::Write(task)))
        } else {
            Err("rwlock is held by "@ + holder_debug(held[l]))
        },
        RwlockOperationView::Release(l) => if !held.contains_key(l) {
            Ok(held.insert(l, HeldRwlockOpView::Read(seq![task])))
        } else {
            match held[l] {
                HeldRwlockOpView::Read(tasks) => if !tasks.contains(task) {
                    Err(
                        "rwlock is not held by "@ + decimal(task as nat) + ": "@ + tasks_debug(
                            tasks,
                        ),
                    )
                } else if tasks.remove(first_index(tasks, task)).len() == 0 {
                    Ok(held.remove(l))
                } else {
                    Ok(
                        held.insert(
                            l,
                            HeldRwlockOpView::Read(tasks.remove(first_index(tasks, task))),
                        ),
                    )
                },
                HeldRwlockOpView::Write(holder) => if holder == task {
                    Ok(held.remove(l))
                } else {
                    Err("lock is held by "@ + decimal(holder as nat))
                },
            }
        },
    }
}

/// A read is runnable unless a writer holds the lock, a write only when
/// nobody holds it, and a release always. An accepted read puts the task
/// among the readers and keeps the earlier ones; an accepted write makes the
/// task the only holder; the writer's release frees the lock. Acquisitions
/// are accepted exactly when they are runnable, and no other lock changes.
pub proof fn lemma_rwlock_op_rules(held: Map<Seq<char>, HeldRwlockOpView>, task: u64, lock: Seq<char>)
    ensures
        rwlock_op_runnable(held, RwlockOperationView::AcquireRead(lock)) <==> !(held.contains_key(lock)
            && held[lock] is Write),
        rwlock_op_runnable(held, RwlockOperationView::AcquireWrite(lock)) <==> !held.contains_key(lock),
        rwlock_op_runnable(held, RwlockOperationView::Release(lock)),
        rwlock_op_selected(held, task, RwlockOperationView::AcquireRead(lock)) is Ok <==> !(held.contains_key(lock)
            && held[lock] is Write),
        rwlock_op_selected(held, task, RwlockOperationView::AcquireRead(lock)) matches Ok(h) ==> {
            &&& h.contains_key(lock) && h[lock] is Read && h[lock]->Read_0.contains(task)
            &&& held.contains_key(lock) ==> forall|u: u64|
                #[trigger] held[lock]->Read_0.contains(u) ==> h[lock]->Read_0.contains(u)
            &&& forall|l: Seq<char>| l != lock ==> (#[trigger] h.contains_key(l) == held.contains_key(l) && h[l] == held[l])
        },
        rwlock_op_selected(held, task, RwlockOperationView::AcquireWrite(lock)) is Ok <==> !held.contains_key(lock),
        rwlock_op_selected(held, task, RwlockOperationView::AcquireWrite(lock)) matches Ok(h) ==> {
            &&& h.contains_key(lock) && h[lock] == HeldRwlockOpView::Write(task)
            &&& forall|l: Seq<char>| l != lock ==> (#[trigger] h.contains_key(l) == held.contains_key(l) && h[l] == held[l])
        },
        held.contains_key(lock) && held[lock] == HeldRwlockOpView::Write(task) ==> rwlock_op_selected(
            held,
            task,
            RwlockOperationView::Release(lock),
        ) == Ok::<Map<Seq<char>, HeldRwlockOpView>, Seq<char>>(held.remove(lock)),
{
    if held.contains_key(lock) {
        if let HeldRwlockOpView::Read(tasks) = held[lock] {
            assert forall|u: u64| #[trigger] tasks.contains(u) implies tasks.push(task).contains(u) by {
                let i = choose|i: int| 0 <= i < tasks.len() && tasks[i] == u;
                assert(tasks.push(task)[i] == u);
            }
            assert(tasks.push(task)[tasks.len() as int] == task);
        }
    } else {
        assert(seq![task][0] == task);
    }
}

/// Readers share a read-write lock and a writer holds it alone: a lock that
/// nobody holds can be acquired either way; a runnable acquisition is
/// accepted; once a task reads, another read is runnable and a write is not;
/// once a task writes, neither is.
pub proof fn lemma_rwlock_sharing(
    held: Map<Seq<char>, HeldRwlockOpView>,
    task: u64,
    lock: Seq<char>,
)
    ensures
        !held.contains_key(lock) ==> rwlock_op_runnable(held, RwlockOperationView::AcquireRead(lock))
            && rwlock_op_runnable(held, RwlockOperationView::AcquireWrite(lock)),
        rwlock_op_runnable(held, RwlockOperationView::AcquireRead(lock)) ==> (rwlock_op_selected(
            held,
            task,
            RwlockOperationView::AcquireRead(lock),
        ) matches Ok(h) && rwlock_op_runnable(h, RwlockOperationView::AcquireRead(lock))
            && !rwlock_op_runnable(h, RwlockOperationView::AcquireWrite(lock))),
        rwlock_op_runnable(held, RwlockOperationView::AcquireWrite(lock)) ==> (rwlock_op_selected(
            held,
            task,
            RwlockOperationView::AcquireWrite(lock),
        ) matches Ok(h) && !rwlock_op_runnable(h, RwlockOperationView::AcquireRead(lock))
            && !rwlock_op_runnable(h, RwlockOperationView::AcquireWrite(lock))),
{
}

/// The only reader of a read-write lock releases it: the release is
/// accepted and the lock is free again.
pub proof fn lemma_rwlock_lone_reader_release(
    held: Map<Seq<char>, HeldRwlockOpView>,
    task: u64,
    lock: Seq<char>,
)
    requires
        held.contains_key(lock),
        held[lock] == HeldRwlockOpView::Read(seq![task]),
    ensures
        rwlock_op_selected(held, task, RwlockOperationView::Release(lock)) == Ok::<
            Map<Seq<char>, HeldRwlockOpView>,
            Seq<char>,
        >(held.remove(lock)),
{
    reveal(first_index);
    assert(seq![task].contains(task)) by {
        assert(seq![task][0] == task);
    }
    let i = first_index(seq![task], task);
    assert(i == 0);
    assert(seq![task].remove(i).len() == 0);
}

fn push_tasks_debug(s: &mut String, tasks: &Vec<TaskId>)
    ensures
        final(s)@ == old(s)@ + tasks_debug(tasks@.map_values(|t: TaskId| t@)),
{
    let ghost views = tasks@.map_values(|t: TaskId| t@);
    let ghost start = s@;
    push_str(s, "[");
    let mut i: usize = 0;
    while i < tasks.len()
        invariant
            i <= tasks@.len(),
            views == tasks@.map_values(|t: TaskId| t@),
            s@ == start + "["@ + tasks_debug_items(views.take(i as int)),
        decreases tasks@.len() - i,
    {
        let ghost before = s@;
        if i > 0 {
            push_str(s, ", ");
        }
        push_task_debug(s, tasks[i]);
        proof {
            let p = views.take(i + 1);
            assert(p.drop_last() =~= views.take(i as int));
            assert(p.last() == tasks@[i as int]@);
            if i == 0 {
                assert(views.take(0) =~= Seq::<u64>::empty());
                assert(tasks_debug_items(views.take(0)) =~= Seq::<char>::empty());
            }
            assert(s@ =~= start + "["@ + tasks_debug_items(p));
        }
        i = i + 1;
    }
    push_str(s, "]");
    proof {
        assert(views.take(i as int) =~= views);
        assert(s@ =~= old(s)@ + tasks_debug(views));
    }
}

fn push_holder_debug(s: &mut String, held: &HeldRwlockOp)
    ensures
        final(s)@ == old(s)@ + holder_debug(held@),
{
    match held {
        HeldRwlockOp::Read(tasks) => {
            push_str(s, "Read(");
            push_tasks_debug(s, tasks);
            push_str(s, ")");
        },
        HeldRwlockOp::Write(task) => {
            push_str(s, "Write(");
            push_task_debug(s, *task);
            push_str(s, ")");
        },
    }
    proof {
        assert(final(s)@ =~= old(s)@ + holder_debug(held@));
    }
}

proof fn lemma_first_index(s: Seq<u64>, t: u64, i: int)
    requires
        0 <= i < s.len(),
        s[i] == t,
        forall|j: int| 0 <= j < i ==> s[j] != t,
    ensures
        first_index(s, t) == i,
{
    reveal(first_index);
    let f = first_index(s, t);
    assert(0 <= f < s.len() && s[f] == t && forall|j: int| 0 <= j < f ==> s[j] != t);
    if f < i {
        assert(s[f] != t);
    } else if f > i {
        assert(s[i] != t);
    }
}

fn position_of(tasks: &Vec<TaskId>, task: TaskId) -> (r: Option<usize>)
    ensures
        match r {
            Some(i) => i < tasks@.len() && i == first_index(tasks@.map_values(|t: TaskId| t@), task@)
                && tasks@.map_values(|t: TaskId| t@).contains(task@),
            None => !tasks@.map_values(|t: TaskId| t@).contains(task@),
        },
{
    let ghost views = tasks@.map_values(|t: TaskId| t@);
    let mut i: usize = 0;
    while i < tasks.len()
        invariant
            i <= tasks@.len(),
            views == tasks@.map_values(|t: TaskId| t@),
            forall|j: int| 0 <= j < i ==> views[j] != task@,
        decreases tasks@.len() - i,
    {
        if tasks[i].same_key(&task) {
            proof {
                assert(views[i as int] == task@);
                lemma_first_index(views, task@, i as int);
            }
            return Some(i);
        }
        i = i + 1;
    }
    None
}

impl RwlockOperation {
    /// Whether the task makes progress with this operation.
    pub fn is_task_runnable(&self, state: &RwlockState, task: TaskId) -> (r: bool)
        ensures
            r == rwlock_op_runnable(state@, self@),
    {
        match self {
            RwlockOperation::AcquireRead(lock_id) => match state.lock_held_by.get(
                &LockName::new(lock_id),
            ) {
                None => true,
                Some(HeldRwlockOp::Read(_)) => true,
                Some(HeldRwlockOp::Write(_)) => false,
            },
            RwlockOperation::AcquireWrite(lock_id) => !state.lock_held_by.contains_key(
                &LockName::new(lock_id),
            ),
            RwlockOperation::Release(_) => true,
        }
    }

    /// Takes this operation of the task as done.
    pub fn task_selected_for_running(&self, state: &mut RwlockState, task: TaskId) -> (r: Result<
        (),
        BadSyncError,
    >)
        ensures
            match rwlock_op_selected(old(state)@, task@, self@) {
                Ok(h) => r is Ok && final(state)@ == h,
                Err(message) => (r matches Err(e) && e.0@ == message) && final(state)@ == old(
                    state,
                )@,
            },
    {
        match self {
            RwlockOperation::AcquireRead(l) => acquire_read(state, LockName::new(l), task),
            RwlockOperation::AcquireWrite(l) => acquire_write(state, LockName::new(l), task),
            RwlockOperation::Release(l) => release(state, LockName::new(l), task),
        }
    }
}

fn acquire_read(state: &mut RwlockState, key: LockName, task: TaskId) -> (r: Result<(), BadSyncError>)
    ensures
        match rwlock_op_selected(old(state)@, task@, RwlockOperationView::AcquireRead(key@)) {
            Ok(h) => r is Ok && final(state)@ == h,
            Err(message) => (r matches Err(e) && e.0@ == message) && final(state)@ == old(state)@,
        },
{
    let ghost h = state@;
    let ghost l = key@;
    match state.lock_held_by.remove(&key) {
        None => {
            let mut tasks = Vec::new();
            tasks.push(task);
            state.lock_held_by.insert(key, HeldRwlockOp::Read(tasks));
            proof {
                assert(tasks@.map_values(|t: TaskId| t@) =~= seq![task@]);
                assert(state@ =~= h.insert(l, HeldRwlockOpView::Read(seq![task@])));
            }
            Ok(())
        },
        Some(HeldRwlockOp::Write(holder)) => {
            let mut s = String::new();
            push_str(&mut s, "rwlock is held by ");
            push_decimal(&mut s, holder.get());
            state.lock_held_by.insert(key, HeldRwlockOp::Write(holder));
            proof {
                assert(state@ =~= h);
            }
            Err(BadSyncError(s))
        },
        Some(HeldRwlockOp::Read(mut tasks)) => {
            let ghost tv = tasks@.map_values(|t: TaskId| t@);
            tasks.push(task);
            proof {
                assert(tasks@.map_values(|t: TaskId| t@) =~= tv.push(task@));
            }
            state.lock_held_by.insert(key, HeldRwlockOp::Read(tasks));
            proof {
                assert(state@ =~= h.insert(l, HeldRwlockOpView::Read(tv.push(task@))));
            }
            Ok(())
        },
    }
}

fn acquire_write(state: &mut RwlockState, key: LockName, task: TaskId) -> (r: Result<
    (),
    BadSyncError,
>)
    ensures
        match rwlock_op_selected(old(state)@, task@, RwlockOperationView::AcquireWrite(key@)) {
            Ok(h) => r is Ok && final(state)@ == h,
            Err(message) => (r matches Err(e) && e.0@ == message) && final(state)@ == old(state)@,
        },
{
    let ghost h = state@;
    let ghost l = key@;
    match state.lock_held_by.remove(&key) {
        None => {
            state.lock_held_by.insert(key, HeldRwlockOp::Write(task));
            proof {
                assert(state@ =~= h.insert(l, HeldRwlockOpView::Write(task@)));
            }
            Ok(())
        },
        Some(held) => {
            let mut s = String::new();
            push_str(&mut s, "rwlock is held by ");
            push_holder_debug(&mut s, &held);
            state.lock_held_by.insert(key, held);
            proof {
                assert(state@ =~= h);
            }
            Err(BadSyncError(s))
        },
    }
}

fn release(state: &mut RwlockState, key: LockName, task: TaskId) -> (r: Result<(), BadSyncError>)
    ensures
        match rwlock_op_selected(old(state)@, task@, RwlockOperationView::Release(key@)) {
            Ok(h) => r is Ok && final(state)@ == h,
            Err(message) => (r matches Err(e) && e.0@ == message) && final(state)@ == old(state)@,
        },
{
    let ghost h = state@;
    let ghost l = key@;
    match state.lock_held_by.remove(&key) {
        None => {
            let mut tasks = Vec::new();
            tasks.push(task);
            state.lock_held_by.insert(key, HeldRwlockOp::Read(tasks));
            proof {
                assert(tasks@.map_values(|t: TaskId| t@) =~= seq![task@]);
                assert(state@ =~= h.insert(l, HeldRwlockOpView::Read(seq![task@])));
            }
            Ok(())
        },
        Some(HeldRwlockOp::Write(holder)) => {
            if holder.same_key(&task) {
                proof {
                    assert(state@ =~= h.remove(l));
                }
                return Ok(());
            }
            let mut s = String::new();
            push_str(&mut s, "lock is held by ");
            push_decimal(&mut s, holder.get());
            state.lock_held_by.insert(key, HeldRwlockOp::Write(holder));
            proof {
                assert(state@ =~= h);
            }
            Err(BadSyncError(s))
        },
        Some(HeldRwlockOp::Read(mut tasks)) => {
            let ghost tv = tasks@.map_values(|t: TaskId| t@);
            let r = remove_reader(&mut tasks, task);
            if r.is_err() || tasks.len() > 0 {
                state.lock_held_by.insert(key, HeldRwlockOp::Read(tasks));
            }
            proof {
                if r.is_err() {
                    assert(state@ =~= h);
                } else if tasks@.len() > 0 {
                    assert(state@ =~= h.insert(l, HeldRwlockOpView::Read(tv.remove(first_index(tv, task@)))));
                } else {
                    assert(state@ =~= h.remove(l));
                }
            }
            r
        },
    }
}

/// Removes the first occurrence of the task among the readers.
fn remove_reader(tasks: &mut Vec<TaskId>, task: TaskId) -> (r: Result<(), BadSyncError>)
    ensures
        ({
            let tv = old(tasks)@.map_values(|t: TaskId| t@);
            if tv.contains(task@) {
                &&& r is Ok
                &&& final(tasks)@.map_values(|t: TaskId| t@) == tv.remove(first_index(tv, task@))
                &&& final(tasks)@.len() == tv.len() - 1
            } else {
                &&& r matches Err(e) && e.0@ == "rwlock is not held by "@ + decimal(task@ as nat)
                    + ": "@ + tasks_debug(tv)
                &&& final(tasks)@ == old(tasks)@
            }
        }),
{
    let ghost tv = tasks@.map_values(|t: TaskId| t@);
    match position_of(tasks, task) {
        None => {
            let mut s = String::new();
            push_str(&mut s, "rwlock is not held by ");
            push_decimal(&mut s, task.get());
            push_str(&mut s, ": ");
            push_tasks_debug(&mut s, tasks);
            Err(BadSyncError(s))
        },
        Some(idx) => {
            tasks.remove(idx);
            proof {
                assert(tasks@.map_values(|t: TaskId| t@) =~= tv.remove(idx as int));
            }
            Ok(())
        },
    }
}

impl SyncDomain for RwlockState {
    type SyncOperation = RwlockOperation;

    open spec fn domain_described() -> bool {
        true
    }

    open spec fn runnable_spec(
        state: Map<Seq<char>, HeldRwlockOpView>,
        task: u64,
        op: RwlockOperationView,
    ) -> bool {
        rwlock_op_runnable(state, op)
    }

    open spec fn selected_spec(
        state: Map<Seq<char>, HeldRwlockOpView>,
        task: u64,
        op: RwlockOperationView,
    ) -> (Map<Seq<char>, HeldRwlockOpView>, bool) {
        match rwlock_op_selected(state, task, op) {
            Ok(h) => (h, true),
            Err(_) => (state, false),
        }
    }

    fn is_task_runnable(&self, task: TaskId, op: &RwlockOperation) -> (r: bool) {
        op.is_task_runnable(self, task)
    }

    fn task_selected_for_running(&mut self, task: TaskId, op: &RwlockOperation) -> (r: Result<
        (),
        BadSyncError,
    >) {
        op.task_selected_for_running(self, task)
    }
}

impl SyncOperation for RwlockOperation {
    type Domain = RwlockState;
}

} // verus!
