//! Replay traces in their textual form.
//!
//! A replay trace lists, for each scheduling decision of a run, the tasks
//! that were suspended (with their names and suspension points) and the tasks
//! that were resumed. Names and points are numbers that index a list of
//! strings, starting at 1.
//!
//! The text is `steps#strings`: the steps are separated by `;`, each step is
//! `suspended/resumed`, the suspended tasks are separated by `,` and each is
//! `id-name-position`, the resumed tasks are stable identities separated by
//! `,`; the strings are separated by `,`.

use crate::task::TaskStableId;
use crate::text::{
    all_digits, chars_of, decimal, digits_value, find_char, first_index, free_of, is_digit, joined,
    lemma_decimal_free, lemma_first_index_at, lemma_joined_free, lemma_joined_step,
    lemma_parse_decimal, lemma_split_joined, parse_number, parse_unsigned, push_decimal, push_str,
    slice_chars, split_chars, split_on, split_once, string_of, unsigned_digits,
};
use vstd::prelude::*;

verus! {

broadcast use vstd::seq_lib::group_seq_properties;

/// A suspended task of a step: its stable identity and the indices of its
/// name and of its suspension point in the strings of the trace.
#[derive(Debug, Clone, Copy)]
pub struct SuspendedTask {
    pub id: TaskStableId,
    pub name: u32,
    pub position: u32,
}

impl View for SuspendedTask {
    type V = (u64, u32, u32);

    open spec fn view(&self) -> (u64, u32, u32) {
        (self.id@, self.name, self.position)
    }
}

/// One scheduling decision: which tasks were suspended and which were
/// resumed.
#[derive(Debug, Clone)]
pub struct ReplayStep {
    pub suspended_tasks: Vec<SuspendedTask>,
    pub resumed_tasks: Vec<TaskStableId>,
}

pub struct ReplayStepView {
    pub suspended: Seq<(u64, u32, u32)>,
    pub resumed: Seq<u64>,
}

impl View for ReplayStep {
    type V = ReplayStepView;

    open spec fn view(&self) -> ReplayStepView {
        ReplayStepView {
            suspended: self.suspended_tasks@.map_values(|t: SuspendedTask| t@),
            resumed: self.resumed_tasks@.map_values(|t: TaskStableId| t@),
        }
    }
}

/// A replay trace: its steps and its strings.
#[derive(Debug, Clone)]
pub struct ReplayTrace {
    pub strings: Vec<String>,
    pub steps: Vec<ReplayStep>,
}

pub struct ReplayTraceView {
    pub strings: Seq<Seq<char>>,
    pub steps: Seq<ReplayStepView>,
}

impl View for ReplayTrace {
    type V = ReplayTraceView;

    open spec fn view(&self) -> ReplayTraceView {
        ReplayTraceView {
            strings: self.strings@.map_values(|s: String| s@),
            steps: self.steps@.map_values(|s: ReplayStep| s@),
        }
    }
}

/// Every name and position of the trace indexes one of its strings.
pub open spec fn indices_in_range(t: ReplayTraceView) -> bool {
    forall|i: int, j: int|
        0 <= i < t.steps.len() && 0 <= j < t.steps[i].suspended.len() ==> {
            let task = #[trigger] t.steps[i].suspended[j];
            &&& 1 <= task.1 <= t.strings.len()
            &&& 1 <= task.2 <= t.strings.len()
        }
}

impl ReplayTrace {
    /// Whether every name and position of the trace indexes one of its
    /// strings.
    pub fn indices_valid(&self) -> (r: bool)
        ensures
            r == indices_in_range(self@),
    {
        let n = self.strings.len() as u64;
        let mut i: usize = 0;
        while i < self.steps.len()
            invariant
                i <= self.steps@.len(),
                n == self@.strings.len(),
                forall|a: int, j: int|
                    0 <= a < i && 0 <= j < self@.steps[a].suspended.len() ==> {
                        let task = #[trigger] self@.steps[a].suspended[j];
                        &&& 1 <= task.1 <= self@.strings.len()
                        &&& 1 <= task.2 <= self@.strings.len()
                    },
            decreases self.steps@.len() - i,
        {
            let step = &self.steps[i];
            let mut j: usize = 0;
            while j < step.suspended_tasks.len()
                invariant
                    j <= step.suspended_tasks@.len(),
                    i < self.steps@.len(),
                    step == self.steps@[i as int],
                    self@.steps[i as int] == step@,
                    n == self@.strings.len(),
                    forall|k: int|
                        0 <= k < j ==> {
                            let task = #[trigger] self@.steps[i as int].suspended[k];
                            &&& 1 <= task.1 <= self@.strings.len()
                            &&& 1 <= task.2 <= self@.strings.len()
                        },
                decreases step.suspended_tasks@.len() - j,
            {
                let t = step.suspended_tasks[j];
                proof {
                    assert(step@.suspended[j as int] == t@);
                }
                if t.name < 1 || t.name as u64 > n || t.position < 1 || t.position as u64 > n {
                    proof {
                        assert(self@.steps[i as int].suspended[j as int] == t@);
                    }
                    return false;
                }
                proof {
                    assert(self@.steps[i as int].suspended[j as int] == t@);
                }
                j = j + 1;
            }
            i = i + 1;
        }
        true
    }
}

/// Why a text is not a replay trace.
#[derive(Debug)]
pub struct ReplayTraceParseError(pub &'static str);

/// The text of a suspended task: `id-name-position`.
pub open spec fn suspended_text(t: (u64, u32, u32)) -> Seq<char> {
    decimal(t.0 as nat) + "-"@ + decimal(t.1 as nat) + "-"@ + decimal(t.2 as nat)
}

pub open spec fn suspended_texts(s: Seq<(u64, u32, u32)>) -> Seq<Seq<char>> {
    Seq::new(s.len(), |i: int| suspended_text(s[i]))
}

pub open spec fn id_texts(s: Seq<u64>) -> Seq<Seq<char>> {
    Seq::new(s.len(), |i: int| decimal(s[i] as nat))
}

/// The text of a step: the suspended tasks, `/`, the resumed tasks.
pub open spec fn step_text(s: ReplayStepView) -> Seq<char> {
    joined(suspended_texts(s.suspended), ","@) + "/"@ + joined(id_texts(s.resumed), ","@)
}

pub open spec fn step_texts(s: Seq<ReplayStepView>) -> Seq<Seq<char>> {
    Seq::new(s.len(), |i: int| step_text(s[i]))
}

/// The text of a trace: the steps separated by `;`, `#`, the strings
/// separated by `,`.
pub open spec fn trace_text(t: ReplayTraceView) -> Seq<char> {
    joined(step_texts(t.steps), ";"@) + "#"@ + joined(t.strings, ","@)
}

/// A stable identity: a number from 1.
pub open spec fn parse_id(s: Seq<char>) -> Option<u64> {
    match parse_unsigned(s) {
        Some(v) => if 1 <= v <= u64::MAX {
            Some(v as u64)
        } else {
            None
        },
        None => None,
    }
}

/// An index of a string: a `u32`.
pub open spec fn parse_index(s: Seq<char>) -> Option<u32> {
    match parse_unsigned(s) {
        Some(v) => if v <= u32::MAX {
            Some(v as u32)
        } else {
            None
        },
        None => None,
    }
}

/// How the text of a suspended task is read.
pub open spec fn parse_suspended(s: Seq<char>) -> Result<(u64, u32, u32), Seq<char>> {
    let parts = split_on(s, '-');
    if parts.len() != 3 {
        Err("wrong number of -"@)
    } else {
        match parse_id(parts[0]) {
            None => Err("parse task id"@),
            Some(id) => match parse_index(parts[1]) {
                None => Err("parse task name"@),
                Some(name) => match parse_index(parts[2]) {
                    None => Err("parse task position"@),
                    Some(position) => Ok((id, name, position)),
                },
            },
        }
    }
}

/// Reads the suspended tasks in order; the first that cannot be read gives
/// the error.
pub open spec fn parse_suspended_all(parts: Seq<Seq<char>>) -> Result<Seq<(u64, u32, u32)>, Seq<char>>
    decreases parts.len(),
{
    if parts.len() == 0 {
        Ok(Seq::empty())
    } else {
        match parse_suspended_all(parts.drop_last()) {
            Err(e) => Err(e),
            Ok(v) => match parse_suspended(parts.last()) {
                Err(e) => Err(e),
                Ok(x) => Ok(v.push(x)),
            },
        }
    }
}

/// Reads stable identities in order.
pub open spec fn parse_ids_all(parts: Seq<Seq<char>>) -> Result<Seq<u64>, Seq<char>>
    decreases parts.len(),
{
    if parts.len() == 0 {
        Ok(Seq::empty())
    } else {
        match parse_ids_all(parts.drop_last()) {
            Err(e) => Err(e),
            Ok(v) => match parse_id(parts.last()) {
                None => Err("parse task id"@),
                Some(x) => Ok(v.push(x)),
            },
        }
    }
}

/// How the text of a step is read.
pub open spec fn parse_step(s: Seq<char>) -> Result<ReplayStepView, Seq<char>> {
    match split_once(s, '/') {
        None => Err("no /"@),
        Some((a, b)) => match parse_suspended_all(split_on(a, ',')) {
            Err(e) => Err(e),
            Ok(suspended) => match parse_ids_all(split_on(b, ',')) {
                Err(e) => Err(e),
                Ok(resumed) => Ok(ReplayStepView { suspended, resumed }),
            },
        },
    }
}

/// Reads the steps in order.
pub open spec fn parse_steps_all(parts: Seq<Seq<char>>) -> Result<Seq<ReplayStepView>, Seq<char>>
    decreases parts.len(),
{
    if parts.len() == 0 {
        Ok(Seq::empty())
    } else {
        match parse_steps_all(parts.drop_last()) {
            Err(e) => Err(e),
            Ok(v) => match parse_step(parts.last()) {
                Err(e) => Err(e),
                Ok(x) => Ok(v.push(x)),
            },
        }
    }
}

/// How the text of a trace is read.
pub open spec fn parse_trace(s: Seq<char>) -> Result<ReplayTraceView, Seq<char>> {
    match split_once(s, '#') {
        None => Err("no #"@),
        Some((a, b)) => match parse_steps_all(split_on(a, ';')) {
            Err(e) => Err(e),
            Ok(steps) => Ok(ReplayTraceView { strings: split_on(b, ','), steps }),
        },
    }
}

fn push_suspended(out: &mut String, t: &SuspendedTask)
    ensures
        final(out)@ == old(out)@ + suspended_text(t@),
{
    push_decimal(out, t.id.get());
    push_str(out, "-");
    push_decimal(out, t.name as u64);
    push_str(out, "-");
    push_decimal(out, t.position as u64);
    proof {
        assert(final(out)@ =~= old(out)@ + suspended_text(t@));
    }
}

fn push_step(out: &mut String, step: &ReplayStep)
    ensures
        final(out)@ == old(out)@ + step_text(step@),
{
    let ghost start = out@;
    let ghost texts = suspended_texts(step@.suspended);
    proof {
        assert(start + joined(texts.take(0), ","@) =~= start);
    }
    let mut i: usize = 0;
    while i < step.suspended_tasks.len()
        invariant
            i <= step.suspended_tasks@.len(),
            texts == suspended_texts(step@.suspended),
            out@ == start + joined(texts.take(i as int), ","@),
        decreases step.suspended_tasks@.len() - i,
    {
        if i > 0 {
            push_str(out, ",");
        }
        proof {
            assert(step@.suspended[i as int] == step.suspended_tasks@[i as int]@);
        }
        push_suspended(out, &step.suspended_tasks[i]);
        proof {
            lemma_joined_step(texts, ","@, i as int);
            assert(out@ =~= start + joined(texts.take(i + 1), ","@));
        }
        i = i + 1;
    }
    proof {
        assert(texts.take(i as int) =~= texts);
    }
    push_str(out, "/");
    let ghost mid = out@;
    let ghost ids = id_texts(step@.resumed);
    proof {
        assert(mid + joined(ids.take(0), ","@) =~= mid);
    }
    let mut k: usize = 0;
    while k < step.resumed_tasks.len()
        invariant
            k <= step.resumed_tasks@.len(),
            ids == id_texts(step@.resumed),
            out@ == mid + joined(ids.take(k as int), ","@),
        decreases step.resumed_tasks@.len() - k,
    {
        if k > 0 {
            push_str(out, ",");
        }
        proof {
            assert(step@.resumed[k as int] == step.resumed_tasks@[k as int]@);
        }
        push_decimal(out, step.resumed_tasks[k].get());
        proof {
            lemma_joined_step(ids, ","@, k as int);
            assert(out@ =~= mid + joined(ids.take(k + 1), ","@));
        }
        k = k + 1;
    }
    proof {
        assert(ids.take(k as int) =~= ids);
        assert(final(out)@ =~= old(out)@ + step_text(step@));
    }
}

fn parse_suspended_chars(s: &Vec<char>) -> (r: Result<SuspendedTask, &'static str>)
    ensures
        match (r, parse_suspended(s@)) {
            (Ok(t), Ok(v)) => t@ == v,
            (Err(e), Err(m)) => e@ == m,
            _ => false,
        },
{
    let parts = split_chars(s, '-');
    proof {
        assert(parts@.len() == split_on(s@, '-').len());
    }
    if parts.len() != 3 {
        proof {
            reveal_strlit("wrong number of -");
        }
        return Err("wrong number of -");
    }
    proof {
        assert(parts@[0]@ == split_on(s@, '-')[0]);
        assert(parts@[1]@ == split_on(s@, '-')[1]);
        assert(parts@[2]@ == split_on(s@, '-')[2]);
    }
    let id = match parse_number(&parts[0], u64::MAX) {
        Some(v) if v >= 1 => v,
        _ => {
            proof {
                reveal_strlit("parse task id");
            }
            return Err("parse task id");
        },
    };
    let name = match parse_number(&parts[1], u32::MAX as u64) {
        Some(v) => v as u32,
        None => {
            proof {
                reveal_strlit("parse task name");
            }
            return Err("parse task name");
        },
    };
    let position = match parse_number(&parts[2], u32::MAX as u64) {
        Some(v) => v as u32,
        None => {
            proof {
                reveal_strlit("parse task position");
            }
            return Err("parse task position");
        },
    };
    Ok(SuspendedTask { id: TaskStableId::new(id), name, position })
}

fn parse_suspended_list(parts: &Vec<Vec<char>>) -> (r: Result<Vec<SuspendedTask>, &'static str>)
    ensures
        match (r, parse_suspended_all(parts@.map_values(|p: Vec<char>| p@))) {
            (Ok(t), Ok(v)) => t@.map_values(|x: SuspendedTask| x@) == v,
            (Err(e), Err(m)) => e@ == m,
            _ => false,
        },
{
    let ghost pv = parts@.map_values(|p: Vec<char>| p@);
    let mut out: Vec<SuspendedTask> = Vec::new();
    let mut i: usize = 0;
    proof {
        assert(pv.take(0) =~= Seq::<Seq<char>>::empty());
        assert(out@.map_values(|x: SuspendedTask| x@) =~= Seq::<(u64, u32, u32)>::empty());
    }
    while i < parts.len()
        invariant
            i <= parts@.len(),
            pv == parts@.map_values(|p: Vec<char>| p@),
            parse_suspended_all(pv.take(i as int)) == Ok::<Seq<(u64, u32, u32)>, Seq<char>>(
                out@.map_values(|x: SuspendedTask| x@),
            ),
        decreases parts@.len() - i,
    {
        proof {
            assert(pv.take(i + 1).drop_last() =~= pv.take(i as int));
            assert(pv.take(i + 1).last() == parts@[i as int]@);
            assert(pv[i as int] == parts@[i as int]@);
        }
        match parse_suspended_chars(&parts[i]) {
            Ok(t) => {
                let ghost before = out@.map_values(|x: SuspendedTask| x@);
                out.push(t);
                proof {
                    assert(out@.map_values(|x: SuspendedTask| x@) =~= before.push(t@));
                }
            },
            Err(e) => {
                proof {
                    lemma_parse_prefix_error_suspended(pv, i as int);
                }
                return Err(e);
            },
        }
        i = i + 1;
    }
    proof {
        assert(pv.take(i as int) =~= pv);
    }
    Ok(out)
}

fn parse_id_list(parts: &Vec<Vec<char>>) -> (r: Result<Vec<TaskStableId>, &'static str>)
    ensures
        match (r, parse_ids_all(parts@.map_values(|p: Vec<char>| p@))) {
            (Ok(t), Ok(v)) => t@.map_values(|x: TaskStableId| x@) == v,
            (Err(e), Err(m)) => e@ == m,
            _ => false,
        },
{
    let ghost pv = parts@.map_values(|p: Vec<char>| p@);
    let mut out: Vec<TaskStableId> = Vec::new();
    let mut i: usize = 0;
    proof {
        assert(pv.take(0) =~= Seq::<Seq<char>>::empty());
        assert(out@.map_values(|x: TaskStableId| x@) =~= Seq::<u64>::empty());
    }
    while i < parts.len()
        invariant
            i <= parts@.len(),
            pv == parts@.map_values(|p: Vec<char>| p@),
            parse_ids_all(pv.take(i as int)) == Ok::<Seq<u64>, Seq<char>>(
                out@.map_values(|x: TaskStableId| x@),
            ),
        decreases parts@.len() - i,
    {
        proof {
            assert(pv.take(i + 1).drop_last() =~= pv.take(i as int));
            assert(pv.take(i + 1).last() == parts@[i as int]@);
            assert(pv[i as int] == parts@[i as int]@);
        }
        match parse_number(&parts[i], u64::MAX) {
            Some(v) if v >= 1 => {
                let ghost before = out@.map_values(|x: TaskStableId| x@);
                out.push(TaskStableId::new(v));
                proof {
                    assert(out@.map_values(|x: TaskStableId| x@) =~= before.push(v));
                }
            },
            _ => {
                proof {
                    reveal_strlit("parse task id");
                    lemma_parse_prefix_error_ids(pv, i as int);
                }
                return Err("parse task id");
            },
        }
        i = i + 1;
    }
    proof {
        assert(pv.take(i as int) =~= pv);
    }
    Ok(out)
}

fn parse_step_chars(s: &Vec<char>) -> (r: Result<ReplayStep, &'static str>)
    ensures
        match (r, parse_step(s@)) {
            (Ok(t), Ok(v)) => t@ == v,
            (Err(e), Err(m)) => e@ == m,
            _ => false,
        },
{
    let n = s.len();
    let slash = match find_char(s, '/') {
        Some(i) => i,
        None => {
            proof {
                reveal_strlit("no /");
            }
            return Err("no /");
        },
    };
    let a = slice_chars(s, 0, slash);
    let b = slice_chars(s, slash + 1, n);
    proof {
        assert(a@ =~= s@.take(slash as int));
        assert(b@ =~= s@.skip(slash + 1));
    }
    let parts = split_chars(&a, ',');
    let suspended = match parse_suspended_list(&parts) {
        Ok(v) => v,
        Err(e) => {
            return Err(e);
        },
    };
    let rparts = split_chars(&b, ',');
    let resumed = match parse_id_list(&rparts) {
        Ok(v) => v,
        Err(e) => {
            return Err(e);
        },
    };
    Ok(ReplayStep { suspended_tasks: suspended, resumed_tasks: resumed })
}

fn parse_step_list(parts: &Vec<Vec<char>>) -> (r: Result<Vec<ReplayStep>, &'static str>)
    ensures
        match (r, parse_steps_all(parts@.map_values(|p: Vec<char>| p@))) {
            (Ok(t), Ok(v)) => t@.map_values(|x: ReplayStep| x@) == v,
            (Err(e), Err(m)) => e@ == m,
            _ => false,
        },
{
    let ghost pv = parts@.map_values(|p: Vec<char>| p@);
    let mut out: Vec<ReplayStep> = Vec::new();
    let mut i: usize = 0;
    proof {
        assert(pv.take(0) =~= Seq::<Seq<char>>::empty());
        assert(out@.map_values(|x: ReplayStep| x@) =~= Seq::<ReplayStepView>::empty());
    }
    while i < parts.len()
        invariant
            i <= parts@.len(),
            pv == parts@.map_values(|p: Vec<char>| p@),
            parse_steps_all(pv.take(i as int)) == Ok::<Seq<ReplayStepView>, Seq<char>>(
                out@.map_values(|x: ReplayStep| x@),
            ),
        decreases parts@.len() - i,
    {
        proof {
            assert(pv.take(i + 1).drop_last() =~= pv.take(i as int));
            assert(pv.take(i + 1).last() == parts@[i as int]@);
            assert(pv[i as int] == parts@[i as int]@);
        }
        match parse_step_chars(&parts[i]) {
            Ok(t) => {
                let ghost before = out@.map_values(|x: ReplayStep| x@);
                out.push(t);
                proof {
                    assert(out@.map_values(|x: ReplayStep| x@) =~= before.push(t@));
                }
            },
            Err(e) => {
                proof {
                    lemma_parse_prefix_error_steps(pv, i as int);
                }
                return Err(e);
            },
        }
        i = i + 1;
    }
    proof {
        assert(pv.take(i as int) =~= pv);
    }
    Ok(out)
}

proof fn lemma_parse_prefix_error_suspended(parts: Seq<Seq<char>>, i: int)
    requires
        0 <= i < parts.len(),
        parse_suspended_all(parts.take(i)) is Ok,
        parse_suspended(parts[i]) is Err,
    ensures
        parse_suspended_all(parts) == Err::<Seq<(u64, u32, u32)>, Seq<char>>(
            parse_suspended(parts[i])->Err_0,
        ),
    decreases parts.len() - i,
{
    if i == parts.len() - 1 {
        assert(parts.drop_last() =~= parts.take(i));
    } else {
        assert(parts.drop_last().take(i) =~= parts.take(i));
        assert(parts.drop_last()[i] == parts[i]);
        lemma_parse_prefix_error_suspended(parts.drop_last(), i);
    }
}

proof fn lemma_parse_prefix_error_ids(parts: Seq<Seq<char>>, i: int)
    requires
        0 <= i < parts.len(),
        parse_ids_all(parts.take(i)) is Ok,
        parse_id(parts[i]) is None,
    ensures
        parse_ids_all(parts) == Err::<Seq<u64>, Seq<char>>("parse task id"@),
    decreases parts.len() - i,
{
    if i == parts.len() - 1 {
        assert(parts.drop_last() =~= parts.take(i));
    } else {
        assert(parts.drop_last().take(i) =~= parts.take(i));
        assert(parts.drop_last()[i] == parts[i]);
        lemma_parse_prefix_error_ids(parts.drop_last(), i);
    }
}

proof fn lemma_parse_prefix_error_steps(parts: Seq<Seq<char>>, i: int)
    requires
        0 <= i < parts.len(),
        parse_steps_all(parts.take(i)) is Ok,
        parse_step(parts[i]) is Err,
    ensures
        parse_steps_all(parts) == Err::<Seq<ReplayStepView>, Seq<char>>(parse_step(parts[i])->Err_0),
    decreases parts.len() - i,
{
    if i == parts.len() - 1 {
        assert(parts.drop_last() =~= parts.take(i));
    } else {
        assert(parts.drop_last().take(i) =~= parts.take(i));
        assert(parts.drop_last()[i] == parts[i]);
        lemma_parse_prefix_error_steps(parts.drop_last(), i);
    }
}

/// A trace that its text gives back: at least one step, each with at least
/// one suspended and one resumed task, stable identities from 1, and at
/// least one string, none with a comma.
pub open spec fn text_round_trips(t: ReplayTraceView) -> bool {
    &&& t.steps.len() >= 1
    &&& forall|i: int| 0 <= i < t.steps.len() ==> step_round_trips(#[trigger] t.steps[i])
    &&& t.strings.len() >= 1
    &&& forall|i: int| 0 <= i < t.strings.len() ==> free_of(#[trigger] t.strings[i], ',')
}

/// A step that its text gives back.
pub open spec fn step_round_trips(st: ReplayStepView) -> bool {
    &&& st.suspended.len() >= 1
    &&& st.resumed.len() >= 1
    &&& forall|j: int| 0 <= j < st.suspended.len() ==> (#[trigger] st.suspended[j]).0 >= 1
    &&& forall|j: int| 0 <= j < st.resumed.len() ==> #[trigger] st.resumed[j] >= 1
}

proof fn lemma_separators()
    ensures
        ","@ == seq![','],
        "-"@ == seq!['-'],
        "/"@ == seq!['/'],
        ";"@ == seq![';'],
        "#"@ == seq!['#'],
{
    reveal_strlit(",");
    reveal_strlit("-");
    reveal_strlit("/");
    reveal_strlit(";");
    reveal_strlit("#");
    assert(","@ =~= seq![',']);
    assert("-"@ =~= seq!['-']);
    assert("/"@ =~= seq!['/']);
    assert(";"@ =~= seq![';']);
    assert("#"@ =~= seq!['#']);
}

proof fn lemma_suspended_joined(x: (u64, u32, u32))
    ensures
        suspended_text(x) == joined(
            seq![decimal(x.0 as nat), decimal(x.1 as nat), decimal(x.2 as nat)],
            seq!['-'],
        ),
{
    lemma_separators();
    let (d0, d1, d2) = (decimal(x.0 as nat), decimal(x.1 as nat), decimal(x.2 as nat));
    let parts = seq![d0, d1, d2];
    assert(parts.drop_last() =~= seq![d0, d1]);
    assert(seq![d0, d1].drop_last() =~= seq![d0]);
    assert(joined(seq![d0], seq!['-']) == d0);
    assert(joined(seq![d0, d1], seq!['-']) == d0 + seq!['-'] + d1);
    assert(joined(parts, seq!['-']) == d0 + seq!['-'] + d1 + seq!['-'] + d2);
}

proof fn lemma_suspended_text_free(x: (u64, u32, u32), c: char)
    requires
        !is_digit(c),
        c != '-',
    ensures
        free_of(suspended_text(x), c),
{
    let parts = seq![decimal(x.0 as nat), decimal(x.1 as nat), decimal(x.2 as nat)];
    lemma_suspended_joined(x);
    lemma_decimal_free(x.0 as nat, c);
    lemma_decimal_free(x.1 as nat, c);
    lemma_decimal_free(x.2 as nat, c);
    assert forall|i: int| 0 <= i < parts.len() implies free_of(#[trigger] parts[i], c) by {}
    lemma_joined_free(parts, seq!['-'], c);
}

proof fn lemma_suspended_text(x: (u64, u32, u32))
    requires
        x.0 >= 1,
    ensures
        parse_suspended(suspended_text(x)) == Ok::<(u64, u32, u32), Seq<char>>(x),
{
    let parts = seq![decimal(x.0 as nat), decimal(x.1 as nat), decimal(x.2 as nat)];
    lemma_suspended_joined(x);
    lemma_decimal_free(x.0 as nat, '-');
    lemma_decimal_free(x.1 as nat, '-');
    lemma_decimal_free(x.2 as nat, '-');
    assert forall|i: int| 0 <= i < parts.len() implies free_of(#[trigger] parts[i], '-') by {}
    lemma_split_joined(parts, '-');
    lemma_parse_decimal(x.0 as nat);
    lemma_parse_decimal(x.1 as nat);
    lemma_parse_decimal(x.2 as nat);
}

proof fn lemma_parse_suspended_all(xs: Seq<(u64, u32, u32)>)
    requires
        forall|j: int| 0 <= j < xs.len() ==> (#[trigger] xs[j]).0 >= 1,
    ensures
        parse_suspended_all(suspended_texts(xs)) == Ok::<Seq<(u64, u32, u32)>, Seq<char>>(xs),
    decreases xs.len(),
{
    if xs.len() > 0 {
        let rest = xs.drop_last();
        assert forall|j: int| 0 <= j < rest.len() implies (#[trigger] rest[j]).0 >= 1 by {
            assert(rest[j] == xs[j]);
        }
        lemma_parse_suspended_all(rest);
        assert(suspended_texts(xs).drop_last() =~= suspended_texts(rest));
        assert(xs.last() == xs[xs.len() - 1]);
        lemma_suspended_text(xs.last());
        assert(rest.push(xs.last()) =~= xs);
    } else {
        assert(suspended_texts(xs) =~= Seq::<Seq<char>>::empty());
        assert(xs =~= Seq::<(u64, u32, u32)>::empty());
    }
}

proof fn lemma_parse_ids_all(ids: Seq<u64>)
    requires
        forall|j: int| 0 <= j < ids.len() ==> #[trigger] ids[j] >= 1,
    ensures
        parse_ids_all(id_texts(ids)) == Ok::<Seq<u64>, Seq<char>>(ids),
    decreases ids.len(),
{
    if ids.len() > 0 {
        let rest = ids.drop_last();
        assert forall|j: int| 0 <= j < rest.len() implies #[trigger] rest[j] >= 1 by {
            assert(rest[j] == ids[j]);
        }
        lemma_parse_ids_all(rest);
        assert(id_texts(ids).drop_last() =~= id_texts(rest));
        assert(ids.last() == ids[ids.len() - 1]);
        lemma_parse_decimal(ids.last() as nat);
        assert(rest.push(ids.last()) =~= ids);
    } else {
        assert(id_texts(ids) =~= Seq::<Seq<char>>::empty());
        assert(ids =~= Seq::<u64>::empty());
    }
}

proof fn lemma_step_text(st: ReplayStepView, c: char)
    requires
        step_round_trips(st),
        c == ';' || c == '#',
    ensures
        parse_step(step_text(st)) == Ok::<ReplayStepView, Seq<char>>(st),
        free_of(step_text(st), c),
{
    lemma_separators();
    let texts = suspended_texts(st.suspended);
    let ids = id_texts(st.resumed);
    let j1 = joined(texts, seq![',']);
    let j2 = joined(ids, seq![',']);
    assert forall|i: int| 0 <= i < texts.len() implies free_of(#[trigger] texts[i], ',') && free_of(
        texts[i],
        '/',
    ) && free_of(texts[i], c) by {
        lemma_suspended_text_free(st.suspended[i], ',');
        lemma_suspended_text_free(st.suspended[i], '/');
        lemma_suspended_text_free(st.suspended[i], c);
    }
    assert forall|i: int| 0 <= i < ids.len() implies free_of(#[trigger] ids[i], ',') && free_of(
        ids[i],
        c,
    ) by {
        lemma_decimal_free(st.resumed[i] as nat, ',');
        lemma_decimal_free(st.resumed[i] as nat, c);
    }
    lemma_joined_free(texts, seq![','], '/');
    lemma_joined_free(texts, seq![','], c);
    lemma_joined_free(ids, seq![','], c);
    let text = step_text(st);
    assert(text == j1 + seq!['/'] + j2);
    assert(text[j1.len() as int] == '/');
    assert forall|k: int| 0 <= k < j1.len() implies text[k] != '/' by {
        assert(text[k] == j1[k]);
    }
    lemma_first_index_at(text, '/', j1.len() as int);
    assert(text.take(j1.len() as int) =~= j1);
    assert(text.skip(j1.len() as int + 1) =~= j2);
    lemma_split_joined(texts, ',');
    lemma_split_joined(ids, ',');
    lemma_parse_suspended_all(st.suspended);
    lemma_parse_ids_all(st.resumed);
}

proof fn lemma_parse_steps_all(steps: Seq<ReplayStepView>)
    requires
        forall|i: int| 0 <= i < steps.len() ==> step_round_trips(#[trigger] steps[i]),
    ensures
        parse_steps_all(step_texts(steps)) == Ok::<Seq<ReplayStepView>, Seq<char>>(steps),
    decreases steps.len(),
{
    if steps.len() > 0 {
        let rest = steps.drop_last();
        assert forall|i: int| 0 <= i < rest.len() implies step_round_trips(#[trigger] rest[i]) by {
            assert(rest[i] == steps[i]);
        }
        lemma_parse_steps_all(rest);
        assert(step_texts(steps).drop_last() =~= step_texts(rest));
        assert(steps.last() == steps[steps.len() - 1]);
        lemma_step_text(steps.last(), ';');
        assert(rest.push(steps.last()) =~= steps);
    } else {
        assert(step_texts(steps) =~= Seq::<Seq<char>>::empty());
        assert(steps =~= Seq::<ReplayStepView>::empty());
    }
}

/// Reading the text of a trace gives the trace back, for every trace whose
/// text can be read.
pub proof fn lemma_parse_render(t: ReplayTraceView)
    requires
        text_round_trips(t),
    ensures
        parse_trace(trace_text(t)) == Ok::<ReplayTraceView, Seq<char>>(t),
{
    lemma_separators();
    let texts = step_texts(t.steps);
    let a = joined(texts, seq![';']);
    let b = joined(t.strings, seq![',']);
    assert forall|i: int| 0 <= i < texts.len() implies free_of(#[trigger] texts[i], ';') && free_of(
        texts[i],
        '#',
    ) by {
        lemma_step_text(t.steps[i], ';');
        lemma_step_text(t.steps[i], '#');
    }
    lemma_joined_free(texts, seq![';'], '#');
    let text = trace_text(t);
    assert(text == a + seq!['#'] + b);
    assert(text[a.len() as int] == '#');
    assert forall|k: int| 0 <= k < a.len() implies text[k] != '#' by {
        assert(text[k] == a[k]);
    }
    lemma_first_index_at(text, '#', a.len() as int);
    assert(text.take(a.len() as int) =~= a);
    assert(text.skip(a.len() as int + 1) =~= b);
    lemma_split_joined(texts, ';');
    lemma_split_joined(t.strings, ',');
    lemma_parse_steps_all(t.steps);
}

impl ReplayTrace {
    /// The text of the trace.
    pub fn render(&self) -> (r: String)
        ensures
            r@ == trace_text(self@),
    {
        let mut out = String::new();
        let ghost texts = step_texts(self@.steps);
        proof {
            assert(out@ + joined(texts.take(0), ";"@) =~= Seq::<char>::empty());
        }
        let mut i: usize = 0;
        while i < self.steps.len()
            invariant
                i <= self.steps@.len(),
                texts == step_texts(self@.steps),
                out@ == joined(texts.take(i as int), ";"@),
            decreases self.steps@.len() - i,
        {
            if i > 0 {
                push_str(&mut out, ";");
            }
            proof {
                assert(self@.steps[i as int] == self.steps@[i as int]@);
            }
            let ghost before = out@;
            push_step(&mut out, &self.steps[i]);
            proof {
                lemma_joined_step(texts, ";"@, i as int);
                if i == 0 {
                    assert(out@ =~= joined(texts.take(i + 1), ";"@));
                } else {
                    assert(out@ =~= joined(texts.take(i + 1), ";"@));
                }
            }
            i = i + 1;
        }
        proof {
            assert(texts.take(i as int) =~= texts);
        }
        push_str(&mut out, "#");
        let ghost mid = out@;
        proof {
            assert(mid + joined(self@.strings.take(0), ","@) =~= mid);
        }
        let mut k: usize = 0;
        while k < self.strings.len()
            invariant
                k <= self.strings@.len(),
                out@ == mid + joined(self@.strings.take(k as int), ","@),
            decreases self.strings@.len() - k,
        {
            if k > 0 {
                push_str(&mut out, ",");
            }
            proof {
                assert(self@.strings[k as int] == self.strings@[k as int]@);
            }
            push_str(&mut out, self.strings[k].as_str());
            proof {
                lemma_joined_step(self@.strings, ","@, k as int);
                assert(out@ =~= mid + joined(self@.strings.take(k + 1), ","@));
            }
            k = k + 1;
        }
        proof {
            assert(self@.strings.take(k as int) =~= self@.strings);
        }
        out
    }

    /// Reads a trace from its text.
    pub fn parse(s: &str) -> (r: Result<ReplayTrace, ReplayTraceParseError>)
        ensures
            match (r, parse_trace(s@)) {
                (Ok(t), Ok(v)) => t@ == v,
                (Err(e), Err(m)) => e.0@ == m,
                _ => false,
            },
    {
        let chars = chars_of(s);
        let n = chars.len();
        let hash = match find_char(&chars, '#') {
            Some(i) => i,
            None => {
                proof {
                    reveal_strlit("no #");
                }
                return Err(ReplayTraceParseError("no #"));
            },
        };
        let a = slice_chars(&chars, 0, hash);
        let b = slice_chars(&chars, hash + 1, n);
        proof {
            assert(a@ =~= s@.take(hash as int));
            assert(b@ =~= s@.skip(hash + 1));
        }
        let string_parts = split_chars(&b, ',');
        let mut strings: Vec<String> = Vec::new();
        let mut j: usize = 0;
        while j < string_parts.len()
            invariant
                j <= string_parts@.len(),
                strings@.map_values(|x: String| x@) == string_parts@.map_values(|p: Vec<char>| p@).take(
                    j as int,
                ),
            decreases string_parts@.len() - j,
        {
            let x = string_of(&string_parts[j]);
            let ghost before = strings@.map_values(|x: String| x@);
            strings.push(x);
            proof {
                assert(strings@.map_values(|x: String| x@) =~= before.push(string_parts@[j as int]@));
                assert(string_parts@.map_values(|p: Vec<char>| p@).take(j + 1) =~= string_parts@.map_values(
                    |p: Vec<char>| p@,
                ).take(j as int).push(string_parts@[j as int]@));
            }
            j = j + 1;
        }
        proof {
            assert(string_parts@.map_values(|p: Vec<char>| p@).take(j as int) =~= string_parts@.map_values(
                |p: Vec<char>| p@,
            ));
        }
        let parts = split_chars(&a, ';');
        let steps = match parse_step_list(&parts) {
            Ok(v) => v,
            Err(e) => {
                return Err(ReplayTraceParseError(e));
            },
        };
        let r = ReplayTrace { strings, steps };
        proof {
            assert(r@.strings =~= split_on(b@, ','));
        }
        Ok(r)
    }
}

impl std::str::FromStr for ReplayStep {
    type Err = ReplayTraceParseError;

    /// A step from its text: `id-name-position,...` for the suspended
    /// tasks, then `/`, then the ids of the resumed tasks separated by `,`.
    fn from_str(s: &str) -> (r: Result<ReplayStep, ReplayTraceParseError>)
        ensures
            match (r, parse_step(s@)) {
                (Ok(t), Ok(v)) => t@ == v,
                (Err(e), Err(m)) => e.0@ == m,
                _ => false,
            },
    {
        let chars = chars_of(s);
        match parse_step_chars(&chars) {
            Ok(step) => Ok(step),
            Err(e) => Err(ReplayTraceParseError(e)),
        }
    }
}

impl std::str::FromStr for ReplayTrace {
    type Err = ReplayTraceParseError;

    fn from_str(s: &str) -> (r: Result<ReplayTrace, ReplayTraceParseError>)
        ensures
            match (r, parse_trace(s@)) {
                (Ok(t), Ok(v)) => t@ == v,
                (Err(e), Err(m)) => e.0@ == m,
                _ => false,
            },
    {
        ReplayTrace::parse(s)
    }
}

} // verus!
