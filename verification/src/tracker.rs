//! Tracking of background tasks and their results, grouped by the window that
//! started them.
use std::collections::HashMap;
use vstd::prelude::*;

verus! {

broadcast use vstd::std_specs::hash::group_hash_axioms;

/// `serde_json::Value`, carried through unchanged as the data of a task result.
#[verifier::external_type_specification]
#[verifier::external_body]
pub struct ExJsonValue(serde_json::Value);

/// The kind of a background task.
#[derive(Clone, Copy, Debug, PartialEq, Eq, Structural)]
pub enum TaskType {
    Uncategorized,
    ChunkBlock { block_id: u128 },
    UpdateNBlocks,
    ImportNBlocks,
    ExportNBlocks,
}

/// A task that has been started and whose result is awaited.
pub struct TaskInformation {
    pub id: u128,
    pub message: String,
    pub task_type: TaskType,
    pub long_running: bool,
}

/// Draws a fresh task id from `uuid::Uuid::new_v4`, as a `u128`. The id is random:
/// nothing is promised about its value.
#[verifier::external_body]
fn new_task_id() -> (id: u128) {
    uuid::Uuid::new_v4().as_u128()
}

impl TaskInformation {
    /// A task with a fresh random id.
    pub fn new(message: String, task_type: TaskType, long_running: bool) -> (t: TaskInformation)
        ensures
            t.message == message,
            t.task_type == task_type,
            t.long_running == long_running,
    {
        TaskInformation { id: new_task_id(), message, task_type, long_running }
    }
}

/// The outcome of a task.
pub struct TaskResult {
    pub id: u128,
    pub status: bool,
    pub message: String,
    pub task_type: TaskType,
    pub data: Option<serde_json::Value>,
}

impl TaskResult {
    pub fn new(
        id: u128,
        status: bool,
        message: String,
        task_type: TaskType,
        data: Option<serde_json::Value>,
    ) -> (r: TaskResult)
        ensures
            r == (TaskResult { id, status, message, task_type, data }),
    {
        TaskResult { id, status, message, task_type, data }
    }
}

/// How a notification about a task is shown.
#[derive(Clone, Copy, Debug, PartialEq, Eq)]
pub enum NotificationKind {
    Info,
    Success,
    Error,
}

/// A finished task is reported as a success or an error according to its status.
pub fn get_notification_type(status: bool) -> (k: NotificationKind)
    ensures
        k == (if status {
            NotificationKind::Success
        } else {
            NotificationKind::Error
        }),
{
    match status {
        true => NotificationKind::Success,
        false => NotificationKind::Error,
    }
}

/// The pending tasks and unclaimed results of one window.
pub struct WindowTaskState {
    pub tasks: Vec<TaskInformation>,
    pub results: Vec<TaskResult>,
}

/// The abstract state of one window's tasks.
pub struct WindowTasks {
    pub tasks: Seq<TaskInformation>,
    pub results: Seq<TaskResult>,
}

impl WindowTaskState {
    pub open spec fn model(&self) -> WindowTasks {
        WindowTasks { tasks: self.tasks@, results: self.results@ }
    }
}

/// The first index of a task with the given id.
pub open spec fn task_index(tasks: Seq<TaskInformation>, id: u128, from: int) -> Option<int>
    decreases tasks.len() - from,
{
    if from < 0 || from >= tasks.len() {
        None
    } else if tasks[from].id == id {
        Some(from)
    } else {
        task_index(tasks, id, from + 1)
    }
}

/// The first index of a result of the given type.
pub open spec fn result_index(results: Seq<TaskResult>, t: TaskType, from: int) -> Option<int>
    decreases results.len() - from,
{
    if from < 0 || from >= results.len() {
        None
    } else if results[from].task_type == t {
        Some(from)
    } else {
        result_index(results, t, from + 1)
    }
}

pub open spec fn empty_window() -> WindowTasks {
    WindowTasks { tasks: seq![], results: seq![] }
}

/// The state after `register`: the task is appended to the window's pending tasks.
pub open spec fn spec_register(
    m: Map<u64, WindowTasks>,
    w: u64,
    info: TaskInformation,
) -> Map<u64, WindowTasks> {
    let ws = if m.contains_key(w) {
        m[w]
    } else {
        empty_window()
    };
    m.insert(w, WindowTasks { tasks: ws.tasks.push(info), results: ws.results })
}

/// The results, in order, whose task id is not `id`.
pub open spec fn results_without(results: Seq<TaskResult>, id: u128) -> Seq<TaskResult>
    decreases results.len(),
{
    if results.len() == 0 {
        results
    } else {
        let rest = results_without(results.drop_last(), id);
        if results.last().id == id {
            rest
        } else {
            rest.push(results.last())
        }
    }
}

/// The state after `complete`: the first pending task with the id is removed,
/// together with the results of that task; without such a task nothing changes.
pub open spec fn spec_complete(m: Map<u64, WindowTasks>, w: u64, id: u128) -> Map<u64, WindowTasks> {
    if m.contains_key(w) {
        match task_index(m[w].tasks, id, 0) {
            Some(i) => m.insert(
                w,
                WindowTasks { tasks: m[w].tasks.remove(i), results: results_without(m[w].results, id) },
            ),
            None => m,
        }
    } else {
        m
    }
}

/// A pending task with the id exists in the window.
pub open spec fn has_task(m: Map<u64, WindowTasks>, w: u64, id: u128) -> bool {
    m.contains_key(w) && task_index(m[w].tasks, id, 0) is Some
}

/// The state after `register_result`: if the window has a pending task with the
/// result's id, that task and the earlier results of that task are removed and
/// the result is appended to the window's results; otherwise nothing changes.
pub open spec fn spec_register_result(
    m: Map<u64, WindowTasks>,
    w: u64,
    r: TaskResult,
) -> Map<u64, WindowTasks> {
    if has_task(m, w, r.id) {
        let c = spec_complete(m, w, r.id);
        c.insert(w, WindowTasks { tasks: c[w].tasks, results: c[w].results.push(r) })
    } else {
        m
    }
}

/// The state after `get_task_result`: the first result of the type is removed,
/// and the window is forgotten once it has neither tasks nor results.
pub open spec fn spec_take_result(m: Map<u64, WindowTasks>, w: u64, t: TaskType) -> Map<u64, WindowTasks> {
    if m.contains_key(w) {
        match result_index(m[w].results, t, 0) {
            Some(i) => {
                let ws = WindowTasks { tasks: m[w].tasks, results: m[w].results.remove(i) };
                if ws.tasks.len() == 0 && ws.results.len() == 0 {
                    m.remove(w)
                } else {
                    m.insert(w, ws)
                }
            },
            None => m,
        }
    } else {
        m
    }
}

/// The result that `get_task_result` hands out.
pub open spec fn spec_taken_result(m: Map<u64, WindowTasks>, w: u64, t: TaskType) -> Option<TaskResult> {
    if m.contains_key(w) {
        match result_index(m[w].results, t, 0) {
            Some(i) => Some(m[w].results[i]),
            None => None,
        }
    } else {
        None
    }
}

/// The window has a pending task or an unclaimed result.
pub open spec fn spec_has_pending_items(m: Map<u64, WindowTasks>, w: u64) -> bool {
    m.contains_key(w) && (m[w].tasks.len() > 0 || m[w].results.len() > 0)
}

/// The window has an unclaimed result, of the given type if one is given.
pub open spec fn spec_has_pending_results(
    m: Map<u64, WindowTasks>,
    w: u64,
    t: Option<TaskType>,
) -> bool {
    m.contains_key(w) && match t {
        None => m[w].results.len() > 0,
        Some(t) => exists|i: int| 0 <= i < m[w].results.len() && (#[trigger] m[w].results[i]).task_type == t,
    }
}

/// Tracks the execution results of background tasks, by window.
pub struct TaskTracker {
    windows: HashMap<u64, WindowTaskState>,
}

impl TaskTracker {
    pub closed spec fn model(&self) -> Map<u64, WindowTasks> {
        self.windows@.map_values(|s: WindowTaskState| s.model())
    }

    /// A tracker without tasks.
    pub fn new() -> (t: TaskTracker)
        ensures
            t.model() == Map::<u64, WindowTasks>::empty(),
    {
        let t = TaskTracker { windows: HashMap::new() };
        proof {
            assert(t.model() =~= Map::<u64, WindowTasks>::empty());
        }
        t
    }

    /// Forget the tasks of windows that are no longer open.
    pub fn retain_windows(&mut self, open_windows: &Vec<u64>)
        ensures
            final(self).model() == old(self).model().restrict(open_windows@.to_set()),
    {
        let ghost w0 = self.windows@;
        let mut kept: HashMap<u64, WindowTaskState> = HashMap::new();
        let mut i: usize = 0;
        proof {
            assert(open_windows@.take(0).to_set() =~= Set::<u64>::empty());
            assert(kept@ =~= w0.restrict(Set::<u64>::empty()));
            assert(self.windows@ =~= w0.remove_keys(Set::<u64>::empty()));
        }
        while i < open_windows.len()
            invariant
                i <= open_windows@.len(),
                kept@ == w0.restrict(open_windows@.take(i as int).to_set()),
                self.windows@ == w0.remove_keys(open_windows@.take(i as int).to_set()),
            decreases open_windows@.len() - i,
        {
            let id = open_windows[i];
            let ghost before = open_windows@.take(i as int).to_set();
            proof {
                assert(open_windows@.take(i + 1) =~= open_windows@.take(i as int).push(id));
                open_windows@.take(i as int).lemma_push_to_set_commute(id);
                assert(open_windows@.take(i + 1).to_set() =~= before.insert(id));
            }
            match self.windows.remove(&id) {
                Some(state) => {
                    kept.insert(id, state);
                },
                None => {},
            }
            proof {
                assert(kept@ =~= w0.restrict(before.insert(id)));
                assert(self.windows@ =~= w0.remove_keys(before.insert(id)));
            }
            i = i + 1;
        }
        self.windows = kept;
        proof {
            assert(open_windows@.take(i as int) =~= open_windows@);
            assert(self.model() =~= old(self).model().restrict(open_windows@.to_set()));
        }
    }

    /// Whether the window has pending tasks or unclaimed results.
    pub fn has_pending_items(&self, window_id: u64) -> (b: bool)
        ensures
            b == spec_has_pending_items(self.model(), window_id),
    {
        match self.windows.get(&window_id) {
            Some(state) => !state.tasks.is_empty() || !state.results.is_empty(),
            None => false,
        }
    }

    /// Whether the window has unclaimed results, of the given type when one is given.
    pub fn has_pending_task_results(&self, window_id: u64, task_type: Option<TaskType>) -> (b: bool)
        ensures
            b == spec_has_pending_results(self.model(), window_id, task_type),
    {
        let state = match self.windows.get(&window_id) {
            Some(state) => state,
            None => return false,
        };
        match task_type {
            None => !state.results.is_empty(),
            Some(t) => {
                let found = result_position(&state.results, t);
                proof {
                    lemma_result_index(state.results@, t, 0);
                    assert(self.model()[window_id] == state.model());
                    if exists|i: int| 0 <= i < state.results@.len() && (#[trigger] state.results@[i]).task_type == t {
                        let i = choose|i: int| 0 <= i < state.results@.len() && (#[trigger] state.results@[i]).task_type == t;
                        assert(state.results@[i].task_type == t);
                    }
                }
                found.is_some()
            },
        }
    }

    /// Register a task of the window, to receive its result later.
    pub fn register(&mut self, window_id: u64, task_information: TaskInformation)
        ensures
            final(self).model() == spec_register(old(self).model(), window_id, task_information),
    {
        let ghost m0 = self.model();
        let state = match self.windows.remove(&window_id) {
            Some(mut state) => {
                state.tasks.push(task_information);
                state
            },
            None => {
                let mut tasks = Vec::new();
                tasks.push(task_information);
                WindowTaskState { tasks, results: Vec::new() }
            },
        };
        self.windows.insert(window_id, state);
        proof {
            assert(self.model() =~= spec_register(m0, window_id, task_information));
        }
    }

    /// Remove a pending task of the window, and the results of that task, and
    /// return the task; `None` (and nothing removed) when the window has no task
    /// with this id.
    pub fn complete(&mut self, window_id: u64, task_id: u128) -> (t: Option<TaskInformation>)
        ensures
            final(self).model() == spec_complete(old(self).model(), window_id, task_id),
            t matches Some(t) ==> has_task(old(self).model(), window_id, task_id) && t
                == old(self).model()[window_id].tasks[task_index(
                old(self).model()[window_id].tasks,
                task_id,
                0,
            ).unwrap()],
            t is None ==> !has_task(old(self).model(), window_id, task_id),
    {
        let ghost m0 = self.model();
        let mut state = match self.windows.remove(&window_id) {
            Some(state) => state,
            None => return None,
        };
        proof {
            assert(m0[window_id] == state.model());
            lemma_task_index(state.tasks@, task_id, 0);
        }
        match task_position(&state.tasks, task_id) {
            Some(i) => {
                let t = state.tasks.remove(i);
                let mut results: Vec<TaskResult> = Vec::new();
                std::mem::swap(&mut results, &mut state.results);
                state.results = drop_results_of(results, task_id);
                self.windows.insert(window_id, state);
                proof {
                    assert(self.model() =~= spec_complete(m0, window_id, task_id));
                }
                Some(t)
            },
            None => {
                self.windows.insert(window_id, state);
                proof {
                    assert(self.model() =~= m0);
                }
                None
            },
        }
    }

    /// Complete a pending task and keep its result for the window; a result
    /// whose task is not pending in the window is dropped.
    pub fn register_result(&mut self, window_id: u64, task_result: TaskResult)
        ensures
            final(self).model() == spec_register_result(old(self).model(), window_id, task_result),
    {
        let ghost m0 = self.model();
        if self.complete(window_id, task_result.id).is_some() {
            let ghost m1 = self.model();
            proof {
                assert(m1.contains_key(window_id));
                assert(self.model().dom() == self.windows@.dom());
                assert(self.windows@.contains_key(window_id));
            }
            let mut state = match self.windows.remove(&window_id) {
                Some(state) => state,
                None => {
                    proof {
                        assert(false);
                    }
                    return;
                },
            };
            proof {
                assert(m1[window_id] == state.model());
            }
            state.results.push(task_result);
            self.windows.insert(window_id, state);
            proof {
                assert(self.model() =~= spec_register_result(m0, window_id, task_result));
            }
        }
    }

    /// Take the first unclaimed result of the type from the window; the window is
    /// forgotten once nothing is left in it.
    pub fn get_task_result(&mut self, window_id: u64, task_type: TaskType) -> (r: Option<TaskResult>)
        ensures
            final(self).model() == spec_take_result(old(self).model(), window_id, task_type),
            r == spec_taken_result(old(self).model(), window_id, task_type),
    {
        let ghost m0 = self.model();
        let mut state = match self.windows.remove(&window_id) {
            Some(state) => state,
            None => return None,
        };
        proof {
            assert(m0[window_id] == state.model());
            lemma_result_index(state.results@, task_type, 0);
        }
        match result_position(&state.results, task_type) {
            Some(i) => {
                let result = state.results.remove(i);
                if state.tasks.is_empty() && state.results.is_empty() {
                    proof {
                        assert(self.model() =~= spec_take_result(m0, window_id, task_type));
                    }
                } else {
                    self.windows.insert(window_id, state);
                    proof {
                        assert(self.model() =~= spec_take_result(m0, window_id, task_type));
                    }
                }
                Some(result)
            },
            None => {
                self.windows.insert(window_id, state);
                proof {
                    assert(self.model() =~= m0);
                }
                None
            },
        }
    }
}

pub proof fn lemma_task_index(tasks: Seq<TaskInformation>, id: u128, from: int)
    requires
        0 <= from,
    ensures
        task_index(tasks, id, from) matches Some(i) ==> from <= i < tasks.len() && tasks[i].id == id,
        task_index(tasks, id, from) is None ==> forall|q: int| from <= q < tasks.len() ==> #[trigger] tasks[q].id != id,
    decreases tasks.len() - from,
{
    if from < tasks.len() && tasks[from].id != id {
        lemma_task_index(tasks, id, from + 1);
    }
}

pub proof fn lemma_result_index(results: Seq<TaskResult>, t: TaskType, from: int)
    requires
        0 <= from,
    ensures
        result_index(results, t, from) matches Some(i) ==> from <= i < results.len() && results[i].task_type == t,
        result_index(results, t, from) is None ==> forall|q: int| from <= q < results.len() ==> #[trigger] results[q].task_type != t,
    decreases results.len() - from,
{
    if from < results.len() && results[from].task_type != t {
        lemma_result_index(results, t, from + 1);
    }
}

fn task_position(tasks: &Vec<TaskInformation>, id: u128) -> (r: Option<usize>)
    ensures
        r matches Some(i) ==> task_index(tasks@, id, 0) == Some(i as int),
        r is None ==> task_index(tasks@, id, 0) is None,
{
    let mut k: usize = 0;
    while k < tasks.len()
        invariant
            task_index(tasks@, id, 0) == task_index(tasks@, id, k as int),
        decreases tasks@.len() - k,
    {
        if tasks[k].id == id {
            return Some(k);
        }
        k = k + 1;
    }
    None
}

/// The results whose task id is not `id`, in order.
fn drop_results_of(results: Vec<TaskResult>, id: u128) -> (kept: Vec<TaskResult>)
    ensures
        kept@ == results_without(results@, id),
{
    let ghost all = results@;
    let mut kept: Vec<TaskResult> = Vec::new();
    let mut rest = results;
    let ghost mut done: int = 0;
    proof {
        assert(rest@ =~= all.subrange(0, all.len() as int));
        assert(all.take(0) =~= Seq::<TaskResult>::empty());
    }
    while rest.len() > 0
        invariant
            0 <= done <= all.len(),
            rest@ == all.subrange(done, all.len() as int),
            kept@ == results_without(all.take(done), id),
        decreases rest@.len(),
    {
        let r = rest.remove(0);
        proof {
            assert(all.take(done + 1).drop_last() =~= all.take(done));
            assert(all.take(done + 1).last() == all[done]);
        }
        if r.id != id {
            kept.push(r);
        }
        proof {
            done = done + 1;
            assert(rest@ =~= all.subrange(done, all.len() as int));
        }
    }
    proof {
        assert(all.take(done) =~= all);
    }
    kept
}

/// Dropping results keeps no result of a type that none of them had.
proof fn lemma_results_without_types(results: Seq<TaskResult>, id: u128, t: TaskType)
    requires
        forall|q: int| 0 <= q < results.len() ==> (#[trigger] results[q]).task_type != t,
    ensures
        forall|q: int| 0 <= q < results_without(results, id).len() ==> (#[trigger] results_without(results, id)[q]).task_type != t,
    decreases results.len(),
{
    if results.len() > 0 {
        let init = results.drop_last();
        assert forall|q: int| 0 <= q < init.len() implies (#[trigger] init[q]).task_type != t by {
            assert(init[q] == results[q]);
        }
        lemma_results_without_types(init, id, t);
        assert(results[results.len() - 1].task_type != t);
    }
}

fn result_position(results: &Vec<TaskResult>, t: TaskType) -> (r: Option<usize>)
    ensures
        r matches Some(i) ==> result_index(results@, t, 0) == Some(i as int),
        r is None ==> result_index(results@, t, 0) is None,
{
    let mut k: usize = 0;
    while k < results.len()
        invariant
            result_index(results@, t, 0) == result_index(results@, t, k as int),
        decreases results@.len() - k,
    {
        if results[k].task_type == t {
            return Some(k);
        }
        k = k + 1;
    }
    None
}

/// Law: a window has pending items as soon as one of its tasks is registered.
pub proof fn law_registered_task_is_pending(m: Map<u64, WindowTasks>, w: u64, t: TaskInformation)
    ensures
        spec_has_pending_items(spec_register(m, w, t), w),
        has_task(spec_register(m, w, t), w, t.id),
{
    let m1 = spec_register(m, w, t);
    let tasks = m1[w].tasks;
    assert(tasks[tasks.len() - 1] == t);
    lemma_task_index(tasks, t.id, 0);
}

/// Law: a result whose task is not pending in the window is ignored.
pub proof fn law_result_without_task_is_dropped(m: Map<u64, WindowTasks>, w: u64, r: TaskResult)
    requires
        !has_task(m, w, r.id),
    ensures
        spec_register_result(m, w, r) == m,
{
}

/// Law: registering a result of a pending task removes that task (its first
/// entry), drops the earlier results of the task and appends the result, so the
/// window has a result of that type pending; the other windows are untouched.
pub proof fn law_result_of_pending_task_is_kept(m: Map<u64, WindowTasks>, w: u64, r: TaskResult)
    requires
        has_task(m, w, r.id),
    ensures
        ({
            let m2 = spec_register_result(m, w, r);
            let i = task_index(m[w].tasks, r.id, 0).unwrap();
            &&& m2[w].tasks == m[w].tasks.remove(i)
            &&& m2[w].results == results_without(m[w].results, r.id).push(r)
            &&& spec_has_pending_results(m2, w, Some(r.task_type))
            &&& forall|v: u64| v != w ==> (#[trigger] m2.contains_key(v) <==> m.contains_key(v)) && (m.contains_key(v) ==> m2[v] == m[v])
        }),
{
    let m2 = spec_register_result(m, w, r);
    let res = m2[w].results;
    assert(res[res.len() - 1] == r);
}

/// What `results_without` keeps: no result of the task, and every other result.
proof fn lemma_results_without(results: Seq<TaskResult>, id: u128)
    ensures
        forall|q: int| 0 <= q < results_without(results, id).len() ==> (#[trigger] results_without(results, id)[q]).id != id
            && results.contains(results_without(results, id)[q]),
        forall|q: int| 0 <= q < results.len() && (#[trigger] results[q]).id != id ==> results_without(results, id).contains(results[q]),
    decreases results.len(),
{
    if results.len() > 0 {
        let init = results.drop_last();
        lemma_results_without(init, id);
        let rest = results_without(init, id);
        let rw = results_without(results, id);
        assert forall|q: int| 0 <= q < rw.len() implies (#[trigger] rw[q]).id != id && results.contains(rw[q]) by {
            if q < rest.len() {
                assert(rw[q] == rest[q]);
                assert(init.contains(rest[q]));
                let k = choose|k: int| 0 <= k < init.len() && init[k] == rest[q];
                assert(results[k] == init[k]);
            } else {
                assert(rw[q] == results.last());
                assert(results[results.len() - 1] == results.last());
            }
        }
        assert forall|q: int| 0 <= q < results.len() && (#[trigger] results[q]).id != id implies rw.contains(results[q]) by {
            if q < init.len() {
                assert(init[q] == results[q]);
                assert(rest.contains(init[q]));
                let k = choose|k: int| 0 <= k < rest.len() && rest[k] == init[q];
                assert(rw[k] == rest[k]);
            } else {
                assert(rw[rw.len() - 1] == results[q]);
            }
        }
    }
}

/// Law: completing a pending task removes one entry of it and every result of
/// that task, keeping the other results; completing a task that is not pending
/// changes nothing.
pub proof fn law_complete_removes_the_task_and_its_results(m: Map<u64, WindowTasks>, w: u64, id: u128)
    ensures
        !has_task(m, w, id) ==> spec_complete(m, w, id) == m,
        has_task(m, w, id) ==> ({
            let m2 = spec_complete(m, w, id);
            &&& m2.contains_key(w)
            &&& m2[w].tasks.len() + 1 == m[w].tasks.len()
            &&& forall|q: int| 0 <= q < m2[w].results.len() ==> (#[trigger] m2[w].results[q]).id != id
            &&& forall|q: int| 0 <= q < m[w].results.len() && (#[trigger] m[w].results[q]).id != id ==> m2[w].results.contains(m[w].results[q])
            &&& forall|v: u64| v != w ==> (#[trigger] m2.contains_key(v) <==> m.contains_key(v)) && (m.contains_key(v) ==> m2[v] == m[v])
        }),
{
    if has_task(m, w, id) {
        lemma_task_index(m[w].tasks, id, 0);
        lemma_results_without(m[w].results, id);
    }
}

/// Law: taking a result never touches the window's pending tasks: a window that
/// still has pending tasks is kept with exactly those tasks, a window is forgotten
/// only when it has neither tasks nor results left, the handed-out result is one
/// of the window's results of the asked type, and the other windows are
/// untouched.
pub proof fn law_taking_a_result_keeps_pending_tasks(m: Map<u64, WindowTasks>, w: u64, t: TaskType)
    ensures
        ({
            let m2 = spec_take_result(m, w, t);
            &&& m.contains_key(w) && m[w].tasks.len() > 0 ==> m2.contains_key(w) && m2[w].tasks == m[w].tasks
            &&& m.contains_key(w) && m2.contains_key(w) ==> m2[w].tasks == m[w].tasks
            &&& m.contains_key(w) && !m2.contains_key(w) ==> m[w].tasks.len() == 0 && m[w].results.len() == 1
            &&& m2.contains_key(w) ==> m.contains_key(w)
            &&& spec_taken_result(m, w, t) matches Some(r) ==> r.task_type == t && m[w].results.contains(r)
                && (m2.contains_key(w) ==> m2[w].results.len() + 1 == m[w].results.len())
            &&& spec_taken_result(m, w, t) is None ==> m2 == m
            &&& forall|v: u64| v != w ==> (#[trigger] m2.contains_key(v) <==> m.contains_key(v)) && (m.contains_key(v) ==> m2[v] == m[v])
        }),
{
    if m.contains_key(w) {
        lemma_result_index(m[w].results, t, 0);
        if let Some(i) = result_index(m[w].results, t, 0) {
            assert(m[w].results[i] == spec_taken_result(m, w, t).unwrap());
        }
    }
}

/// Law: once a task is registered and a result with its id is registered in the
/// same window, the window holds that result; if it held no earlier result of the
/// same type, `get_task_result` for that type hands out exactly this result.
pub proof fn law_registered_result_is_returned(
    m: Map<u64, WindowTasks>,
    w: u64,
    t: TaskInformation,
    r: TaskResult,
)
    requires
        r.id == t.id,
        !spec_has_pending_results(m, w, Some(r.task_type)),
    ensures
        spec_taken_result(spec_register_result(spec_register(m, w, t), w, r), w, r.task_type)
            == Some(r),
{
    let m1 = spec_register(m, w, t);
    law_registered_task_is_pending(m, w, t);
    let m2 = spec_register_result(m1, w, r);
    let c = spec_complete(m1, w, r.id);
    let res = m2[w].results;
    assert(res == c[w].results.push(r));
    assert(c[w].results == results_without(m1[w].results, r.id));
    assert forall|q: int| 0 <= q < m1[w].results.len() implies (#[trigger] m1[w].results[q]).task_type != r.task_type by {
        if m.contains_key(w) {
            assert(m1[w].results == m[w].results);
            assert(m[w].results[q].task_type != r.task_type);
        }
    }
    lemma_results_without_types(m1[w].results, r.id, r.task_type);
    assert forall|q: int| 0 <= q < res.len() - 1 implies #[trigger] res[q].task_type != r.task_type by {
        assert(res[q] == c[w].results[q]);
    }
    lemma_result_index(res, r.task_type, 0);
    assert(res[res.len() - 1] == r);
    match result_index(res, r.task_type, 0) {
        None => {
            assert(res[res.len() - 1].task_type != r.task_type);
        },
        Some(i) => {
            if i != res.len() - 1 {
                assert(res[i].task_type != r.task_type);
            }
        },
    }
}

/// Law: a window with no earlier tasks or results is forgotten again after one
/// task is registered, its result is registered, and the result is taken.
pub proof fn law_round_trip_forgets_window(
    m: Map<u64, WindowTasks>,
    w: u64,
    t: TaskInformation,
    r: TaskResult,
)
    requires
        r.id == t.id,
        !m.contains_key(w),
    ensures
        !spec_take_result(spec_register_result(spec_register(m, w, t), w, r), w, r.task_type).contains_key(w),
        !spec_has_pending_items(spec_take_result(spec_register_result(spec_register(m, w, t), w, r), w, r.task_type), w),
{
    let m1 = spec_register(m, w, t);
    law_registered_task_is_pending(m, w, t);
    law_registered_result_is_returned(m, w, t, r);
    let m2 = spec_register_result(m1, w, r);
    assert(m1[w].tasks =~= seq![t]);
    lemma_task_index(m1[w].tasks, t.id, 0);
    assert(task_index(m1[w].tasks, t.id, 0) == Some(0int));
    assert(m2[w].tasks =~= seq![]);
    assert(m2[w].results =~= seq![r]);
    lemma_result_index(m2[w].results, r.task_type, 0);
    assert(m2[w].results.remove(0) =~= seq![]);
}

} // verus!
