//! The data of the asynchronous system runtime: task identifiers, priorities, yield points,
//! resource handles and configuration. Times are in milliseconds.
use vstd::prelude::*;

use crate::ast::{ResourceAccess, SystemDef, SystemParameter};
use crate::names::{string_views, StrMap};
use crate::scheduler::{same_error, ResourceTracker, SchedulerError};
use crate::system_scheduler::{decimal, lemma_revoke_step, push_decimal, revoked_on, revoked_on_keys};
use crate::table_values::ColumnValue;

verus! {

/// An error of asynchronous system execution.
#[derive(Debug, Clone)]
pub enum AsyncExecutionError {
    ResourceConflict {
        system: String,
        resource: String,
        reason: String,
    },
    SchedulingError(SchedulerError),
    /// An error reported by the table runtime, as its message.
    TableError(String),
    SystemError {
        system: String,
        message: String,
    },
    Timeout {
        system: String,
        /// The time limit that passed, in milliseconds.
        duration: u64,
    },
    Cancelled {
        system: String,
    },
    ResourceLifecycleError {
        resource: String,
        phase: String,
        reason: String,
    },
}

/// The identifier of an asynchronous task.
#[derive(Debug, Clone, Copy, PartialEq, Eq, Structural)]
pub struct TaskId(u64);

impl TaskId {
    /// The number of the task.
    pub closed spec fn id(self) -> u64 {
        self.0
    }

    /// The task with number `value`.
    pub fn from_raw(value: u64) -> (r: TaskId)
        ensures
            r.id() == value,
    {
        TaskId(value)
    }

    /// The number of the task.
    pub fn as_u64(&self) -> (r: u64)
        ensures
            r == self.id(),
    {
        self.0
    }
}

/// Priority of a task; later variants are more urgent.
#[derive(Debug, Clone, Copy, PartialEq, Eq, Structural)]
pub enum TaskPriority {
    Low,
    Normal,
    High,
    Critical,
}

/// A point where an asynchronous system gives up control.
#[derive(Debug, Clone)]
pub enum YieldPoint {
    AwaitingResource {
        resource_name: String,
        access_type: ResourceAccess,
    },
    AwaitingTableQuery {
        table_name: String,
        query_type: String,
    },
    AwaitingSystemCompletion {
        system_name: String,
        task_id: TaskId,
    },
    AwaitingSignal {
        signal_name: String,
    },
    Sleeping {
        /// How long to sleep, in milliseconds.
        duration: u64,
        /// When the sleep began, in milliseconds.
        started_at: u64,
    },
}

/// A resource acquired by an asynchronous system.
#[derive(Debug, Clone)]
pub struct ResourceHandle {
    pub resource_name: String,
    pub access_type: ResourceAccess,
    /// When the resource was acquired, in milliseconds.
    pub acquired_at: u64,
    /// How long the lease lasts, in milliseconds.
    pub lease_duration: Option<u64>,
}

/// Configuration of the asynchronous runtime; durations in milliseconds.
#[derive(Debug, Clone, Copy)]
pub struct RuntimeConfig {
    pub max_concurrent_systems: usize,
    pub default_task_timeout: u64,
    pub resource_lease_timeout: u64,
    pub scheduling_quantum: u64,
    pub enable_preemption: bool,
}

impl Default for RuntimeConfig {
    fn default() -> (r: RuntimeConfig)
        ensures
            r.max_concurrent_systems == 100,
            r.default_task_timeout == 30_000,
            r.resource_lease_timeout == 5_000,
            r.scheduling_quantum == 10,
            r.enable_preemption,
    {
        RuntimeConfig {
            max_concurrent_systems: 100,
            default_task_timeout: 30_000,
            resource_lease_timeout: 5_000,
            scheduling_quantum: 10,
            enable_preemption: true,
        }
    }
}

/// Counts of the tasks of the runtime.
#[derive(Debug, Clone, Copy)]
pub struct RuntimeStats {
    pub total_tasks_created: usize,
    pub active_tasks: usize,
    pub queued_tasks: usize,
    pub completed_tasks: usize,
    pub failed_tasks: usize,
    pub cancelled_tasks: usize,
    pub resource_contentions: usize,
}


/// What a finished step of a system produced.
#[derive(Debug, Clone)]
pub enum SystemExecutionResult {
    Success {
        return_value: Option<ColumnValue>,
        resources_modified: Vec<String>,
        tables_modified: Vec<String>,
    },
    Partial {
        intermediate_state: StrMap<ColumnValue>,
        next_yield_point: YieldPoint,
    },
}

/// Whether `b` is a copy of the error `a`: equal, but for a scheduling error, which says the
/// same (`same_error`).
pub open spec fn error_copied(a: AsyncExecutionError, b: AsyncExecutionError) -> bool {
    match a {
        AsyncExecutionError::SchedulingError(e) => b matches AsyncExecutionError::SchedulingError(x) && same_error(e, x),
        _ => b == a,
    }
}

/// A copy of the error.
pub fn copy_error(e: &AsyncExecutionError) -> (r: AsyncExecutionError)
    ensures
        error_copied(*e, r),
{
    match e {
        AsyncExecutionError::ResourceConflict { system, resource, reason } => AsyncExecutionError::ResourceConflict {
            system: system.clone(),
            resource: resource.clone(),
            reason: reason.clone(),
        },
        AsyncExecutionError::SchedulingError(se) => AsyncExecutionError::SchedulingError(se.copy_error()),
        AsyncExecutionError::TableError(m) => AsyncExecutionError::TableError(m.clone()),
        AsyncExecutionError::SystemError { system, message } => AsyncExecutionError::SystemError {
            system: system.clone(),
            message: message.clone(),
        },
        AsyncExecutionError::Timeout { system, duration } => AsyncExecutionError::Timeout {
            system: system.clone(),
            duration: *duration,
        },
        AsyncExecutionError::Cancelled { system } => AsyncExecutionError::Cancelled { system: system.clone() },
        AsyncExecutionError::ResourceLifecycleError { resource, phase, reason } => AsyncExecutionError::ResourceLifecycleError {
            resource: resource.clone(),
            phase: phase.clone(),
            reason: reason.clone(),
        },
    }
}

/// Whether `b` is a copy of the result `a`: the same kind, with equal values, names and
/// yield point, and the same intermediate state in the same order.
pub open spec fn result_copied(a: SystemExecutionResult, b: SystemExecutionResult) -> bool {
    match a {
        SystemExecutionResult::Success { return_value, resources_modified, tables_modified } => b matches SystemExecutionResult::Success {
            return_value: v,
            resources_modified: m,
            tables_modified: t,
        } && return_value == v && resources_modified@ == m@ && tables_modified@ == t@,
        SystemExecutionResult::Partial { intermediate_state, next_yield_point } => b matches SystemExecutionResult::Partial {
            intermediate_state: st,
            next_yield_point: y,
        } && intermediate_state@ == st@ && intermediate_state.key_seq() == st.key_seq()
            && intermediate_state.wf() == st.wf() && next_yield_point == y,
    }
}

/// A copy of the yield point.
pub fn copy_yield_point(yp: &YieldPoint) -> (r: YieldPoint)
    ensures
        r == *yp,
{
    match yp {
        YieldPoint::AwaitingResource { resource_name, access_type } => YieldPoint::AwaitingResource {
            resource_name: resource_name.clone(),
            access_type: *access_type,
        },
        YieldPoint::AwaitingTableQuery { table_name, query_type } => YieldPoint::AwaitingTableQuery {
            table_name: table_name.clone(),
            query_type: query_type.clone(),
        },
        YieldPoint::AwaitingSystemCompletion { system_name, task_id } => YieldPoint::AwaitingSystemCompletion {
            system_name: system_name.clone(),
            task_id: *task_id,
        },
        YieldPoint::AwaitingSignal { signal_name } => YieldPoint::AwaitingSignal { signal_name: signal_name.clone() },
        YieldPoint::Sleeping { duration, started_at } => YieldPoint::Sleeping { duration: *duration, started_at: *started_at },
    }
}

fn copy_names(v: &Vec<String>) -> (r: Vec<String>)
    ensures
        r@ == v@,
{
    let mut r: Vec<String> = Vec::new();
    let mut i: usize = 0;
    while i < v.len()
        invariant
            i <= v@.len(),
            r@ == v@.take(i as int),
        decreases v@.len() - i,
    {
        r.push(v[i].clone());
        assert(v@.take(i + 1) =~= v@.take(i as int).push(v@[i as int]));
        i = i + 1;
    }
    assert(v@.take(i as int) =~= v@);
    r
}

/// A copy of the result.
pub fn copy_result(res: &SystemExecutionResult) -> (r: SystemExecutionResult)
    ensures
        result_copied(*res, r),
{
    match res {
        SystemExecutionResult::Success { return_value, resources_modified, tables_modified } => SystemExecutionResult::Success {
            return_value: match return_value {
                Some(v) => Some(v.copy_value()),
                None => None,
            },
            resources_modified: copy_names(resources_modified),
            tables_modified: copy_names(tables_modified),
        },
        SystemExecutionResult::Partial { intermediate_state, next_yield_point } => SystemExecutionResult::Partial {
            intermediate_state: intermediate_state.copy_entries(),
            next_yield_point: copy_yield_point(next_yield_point),
        },
    }
}

/// The state of an asynchronous task; times in milliseconds.
#[derive(Debug, Clone)]
pub enum SystemExecutionState {
    Pending,
    Running {
        started_at: u64,
    },
    Suspended {
        yield_point: YieldPoint,
        suspended_at: u64,
    },
    Completed {
        result: SystemExecutionResult,
        completed_at: u64,
    },
    Failed {
        error: AsyncExecutionError,
        failed_at: u64,
    },
    Cancelled {
        cancelled_at: u64,
    },
}

/// What one step of a system's execution plan reported.
#[derive(Debug, Clone)]
pub enum ExecutionStepResult {
    Continue,
    Yield(YieldPoint),
    Completed(SystemExecutionResult),
}

/// What one step of a task amounted to.
#[derive(Debug, Clone)]
pub enum TaskStepOutcome {
    /// The task can take another step now.
    NeedsContinuation,
    /// The task has finished with this result.
    Completed(SystemExecutionResult),
    /// The task waits, at this yield point if it has one.
    Waiting(Option<YieldPoint>),
}

/// A system submitted for asynchronous execution.
#[derive(Debug)]
pub struct AsyncSystemTask {
    pub task_id: TaskId,
    pub system_def: SystemDef,
    pub parameters: StrMap<ColumnValue>,
    pub state: SystemExecutionState,
    /// The resources the task holds, by name.
    pub resource_handles: StrMap<ResourceHandle>,
    pub priority: TaskPriority,
    /// The time limit of the task, in milliseconds.
    pub timeout: Option<u64>,
    /// When the task was created, in milliseconds.
    pub created_at: u64,
    pub dependencies: Vec<TaskId>,
}

/// What a finished task leaves behind: its identifier and result, and its system, parameters
/// and priority when the runtime still held the task.
#[derive(Debug)]
pub struct CompletedTaskInfo {
    pub task_id: TaskId,
    pub system_def: Option<SystemDef>,
    pub parameters: Option<StrMap<ColumnValue>>,
    pub priority: TaskPriority,
    pub result: Result<SystemExecutionResult, AsyncExecutionError>,
}

/// Whether `c` reports the result `entry` of a task that the runtime held as `task`: with the
/// task's system, parameters and priority if it was held, else with none and normal priority.
pub open spec fn reports_completion(
    c: CompletedTaskInfo,
    entry: (TaskId, Result<SystemExecutionResult, AsyncExecutionError>),
    task: Option<AsyncSystemTask>,
) -> bool {
    &&& c.task_id == entry.0
    &&& c.result == entry.1
    &&& match task {
        Some(t) => c.system_def == Some(t.system_def) && c.parameters == Some(t.parameters) && c.priority
            == t.priority,
        None => c.system_def is None && c.parameters is None && c.priority == TaskPriority::Normal,
    }
}

/// The handle of a submitted task: its identifier and priority.
#[derive(Debug, Clone, Copy)]
pub struct SystemFuture {
    task_id: TaskId,
    priority: TaskPriority,
}

impl SystemFuture {
    /// The task this handle waits for.
    pub closed spec fn task_of(&self) -> TaskId {
        self.task_id
    }

    /// The priority of the task.
    pub closed spec fn priority_of(&self) -> TaskPriority {
        self.priority
    }

    /// The handle of task `task_id`.
    pub fn new(task_id: TaskId, priority: TaskPriority) -> (r: SystemFuture)
        ensures
            r.task_of() == task_id,
            r.priority_of() == priority,
    {
        SystemFuture { task_id, priority }
    }

    /// The task this handle waits for.
    pub fn task_id(&self) -> (r: TaskId)
        ensures
            r == self.task_of(),
    {
        self.task_id
    }

    /// The priority of the task.
    pub fn priority(&self) -> (r: TaskPriority)
        ensures
            r == self.priority_of(),
    {
        self.priority
    }

    /// Whether the runtime holds a result for the task.
    pub fn is_completed(&self, runtime: &AsyncSystemRuntime) -> (r: bool)
        requires
            runtime.wf(),
        ensures
            r == runtime.completed_ids().contains(self.task_of().id()),
    {
        runtime.has_completed(self.task_id)
    }
}

/// The missing-parameter message for a parameter.
pub open spec fn missing_message(p: SystemParameter) -> Seq<char> {
    match p {
        SystemParameter::Regular { name, .. } => "Missing required parameter: "@ + name@,
        SystemParameter::Resource { name, .. } => "Missing required resource: "@ + name@,
        SystemParameter::Query { name, .. } => "Missing required query parameter: "@ + name@,
    }
}

/// The name of a parameter.
pub open spec fn param_name(p: SystemParameter) -> Seq<char> {
    match p {
        SystemParameter::Regular { name, .. } => name@,
        SystemParameter::Resource { name, .. } => name@,
        SystemParameter::Query { name, .. } => name@,
    }
}

/// Checks that every parameter of the system has a value: the first one without fails.
pub fn validate_system_execution(system_def: &SystemDef, parameters: &StrMap<ColumnValue>) -> (r: Result<(), AsyncExecutionError>)
    requires
        parameters.wf(),
    ensures
        r is Ok <==> forall|i: int| 0 <= i < system_def.parameters@.len()
            ==> parameters@.contains_key(#[trigger] param_name(system_def.parameters@[i])),
        r matches Err(e) ==> exists|i: int| 0 <= i < system_def.parameters@.len()
            && !parameters@.contains_key(#[trigger] param_name(system_def.parameters@[i]))
            && (forall|j: int| 0 <= j < i ==> parameters@.contains_key(#[trigger] param_name(system_def.parameters@[j])))
            && (e matches AsyncExecutionError::SystemError { system, message }
                && system@ == system_def.name@ && message@ == missing_message(system_def.parameters@[i])),
{
    let ps = &system_def.parameters;
    let mut i: usize = 0;
    while i < ps.len()
        invariant
            parameters.wf(),
            *ps == system_def.parameters,
            i <= ps@.len(),
            forall|j: int| 0 <= j < i ==> parameters@.contains_key(#[trigger] param_name(ps@[j])),
        decreases ps@.len() - i,
    {
        let (name, prefix) = match &ps[i] {
            SystemParameter::Regular { name, .. } => (name, "Missing required parameter: "),
            SystemParameter::Resource { name, .. } => (name, "Missing required resource: "),
            SystemParameter::Query { name, .. } => (name, "Missing required query parameter: "),
        };
        if !parameters.contains_key(name.as_str()) {
            let mut message = String::new();
            message.append(prefix);
            message.append(name.as_str());
            let ghost k = i as int;
            assert(!parameters@.contains_key(param_name(ps@[k])));
            return Err(AsyncExecutionError::SystemError { system: system_def.name.clone(), message });
        }
        i = i + 1;
    }
    Ok(())
}

/// Whether `s` may go on after `yp`, given the borrows, the finished tasks and the time:
/// a resource must be available to a newcomer, an awaited task must have finished, and a
/// sleep must have lasted its duration; the other yield points may go on at once.
pub open spec fn resumable(yp: YieldPoint, tracker: ResourceTracker, done: Set<u64>, now: u64) -> bool {
    match yp {
        YieldPoint::AwaitingResource { resource_name, access_type } =>
            tracker.access_allowed(resource_name@, "temp"@, access_type),
        YieldPoint::AwaitingTableQuery { .. } => true,
        YieldPoint::AwaitingSystemCompletion { task_id, .. } => done.contains(task_id.id()),
        YieldPoint::AwaitingSignal { .. } => true,
        YieldPoint::Sleeping { duration, started_at } =>
            (if now >= started_at { now - started_at } else { 0 }) >= duration,
    }
}

/// The trackers `ts` lead from `t0` to `t1`, each step granting to `s` the next parameter of
/// `ps`.
pub open spec fn grant_chain(ts: Seq<ResourceTracker>, t0: ResourceTracker, t1: ResourceTracker, s: Seq<char>, ps: Seq<SystemParameter>) -> bool {
    &&& ts.len() == ps.len() + 1
    &&& ts[0] == t0
    &&& ts[ps.len() as int] == t1
    &&& forall|i: int| 0 <= i < ps.len() ==> #[trigger] param_step(ts[i], ts[i + 1], s, ps[i])
}

/// The tracker after granting to `s`, in order, each resource parameter of `ps`.
pub open spec fn grants_params(t0: ResourceTracker, t1: ResourceTracker, s: Seq<char>, ps: Seq<SystemParameter>) -> bool {
    exists|ts: Seq<ResourceTracker>| #[trigger] grant_chain(ts, t0, t1, s, ps)
}

/// One parameter's grant: a resource parameter's access is allowed and granted; any other
/// parameter changes nothing.
pub open spec fn param_step(tm: ResourceTracker, t1: ResourceTracker, s: Seq<char>, p: SystemParameter) -> bool {
    match p {
        SystemParameter::Resource { name, access, .. } => tm.access_allowed(name@, s, access)
            && ResourceTracker::granted(&tm, &t1, name@, s, access),
        _ => t1 == tm,
    }
}

/// The handles after recording, in order, a handle for each resource parameter of `ps`.
pub open spec fn handles_after(h0: Map<Seq<char>, ResourceHandle>, ps: Seq<SystemParameter>, now: u64, lease: u64) -> Map<Seq<char>, ResourceHandle>
    decreases ps.len(),
{
    if ps.len() == 0 {
        h0
    } else {
        let h = handles_after(h0, ps.drop_last(), now, lease);
        match ps.last() {
            SystemParameter::Resource { name, access, .. } => h.insert(name@, ResourceHandle {
                resource_name: name,
                access_type: access,
                acquired_at: now,
                lease_duration: Some(lease),
            }),
            _ => h,
        }
    }
}

/// The runtime that runs submitted systems step by step.
pub struct AsyncSystemRuntime {
    /// The tasks ready for a step, first in line first.
    task_queue: Vec<TaskId>,
    /// The submitted tasks.
    active_tasks: Vec<AsyncSystemTask>,
    /// Borrows of resources by the tasks' systems.
    resource_tracker: ResourceTracker,
    /// The results of finished tasks.
    completed_tasks: Vec<(TaskId, Result<SystemExecutionResult, AsyncExecutionError>)>,
    config: RuntimeConfig,
}

impl AsyncSystemRuntime {
    /// The identifiers of the submitted tasks, in order.
    pub closed spec fn task_ids(&self) -> Seq<u64> {
        self.active_tasks@.map_values(|t: AsyncSystemTask| t.task_id.id())
    }

    /// The identifiers of the tasks with a result, in order.
    pub closed spec fn completed_id_seq(&self) -> Seq<u64> {
        self.completed_tasks@.map_values(|e: (TaskId, Result<SystemExecutionResult, AsyncExecutionError>)| e.0.id())
    }

    /// The identifiers of the tasks with a result.
    pub closed spec fn completed_ids(&self) -> Set<u64> {
        self.completed_id_seq().to_set()
    }

    /// The queue of ready tasks.
    pub closed spec fn queue(&self) -> Seq<u64> {
        self.task_queue@.map_values(|t: TaskId| t.id())
    }

    /// The borrows of resources.
    pub closed spec fn tracker(&self) -> ResourceTracker {
        self.resource_tracker
    }

    /// The configuration.
    pub closed spec fn runtime_config(&self) -> RuntimeConfig {
        self.config
    }

    /// The submitted task with identifier `id`, when there is one.
    pub closed spec fn task(&self, id: u64) -> Option<AsyncSystemTask> {
        if self.task_ids().contains(id) {
            Some(self.active_tasks@[self.task_ids().index_of(id)])
        } else {
            None
        }
    }

    /// No two tasks, and no two results, share an identifier; the tracker and the handle
    /// maps are well formed.
    pub closed spec fn wf(&self) -> bool {
        &&& self.task_ids().no_duplicates()
        &&& self.completed_id_seq().no_duplicates()
        &&& self.resource_tracker.wf()
        &&& forall|i: int| 0 <= i < self.active_tasks@.len() ==> (#[trigger] self.active_tasks@[i]).resource_handles.wf()
            && self.active_tasks@[i].parameters.wf()
    }

    /// A runtime with no tasks.
    pub fn new(config: RuntimeConfig) -> (r: AsyncSystemRuntime)
        ensures
            r.wf(),
            r.task_ids() == Seq::<u64>::empty(),
            r.queue() == Seq::<u64>::empty(),
            r.completed_ids() == Set::<u64>::empty(),
            r.runtime_config() == config,
            forall|x: Seq<char>| r.tracker().readers(x) == Set::<Seq<char>>::empty() && r.tracker().writer(x) is None
                && r.tracker().owner(x) is None,
    {
        let r = AsyncSystemRuntime {
            task_queue: Vec::new(),
            active_tasks: Vec::new(),
            resource_tracker: ResourceTracker::new(),
            completed_tasks: Vec::new(),
            config,
        };
        assert(r.task_ids() =~= Seq::<u64>::empty());
        assert(r.queue() =~= Seq::<u64>::empty());
        assert(r.completed_id_seq() =~= Seq::<u64>::empty());
        assert(r.completed_ids() =~= Set::<u64>::empty());
        r
    }

    /// Whether the runtime holds a result for `task_id`.
    pub fn has_completed(&self, task_id: TaskId) -> (r: bool)
        requires
            self.wf(),
        ensures
            r == self.completed_ids().contains(task_id.id()),
    {
        let mut i: usize = 0;
        while i < self.completed_tasks.len()
            invariant
                i <= self.completed_tasks@.len(),
                forall|j: int| 0 <= j < i ==> self.completed_id_seq()[j] != task_id.id(),
            decreases self.completed_tasks@.len() - i,
        {
            if self.completed_tasks[i].0.as_u64() == task_id.as_u64() {
                assert(self.completed_id_seq()[i as int] == task_id.id());
                return true;
            }
            i = i + 1;
        }
        proof {
            if self.completed_id_seq().contains(task_id.id()) {
                let j = choose|j: int| 0 <= j < self.completed_id_seq().len() && self.completed_id_seq()[j] == task_id.id();
            }
        }
        false
    }

    /// Whether a task at `yp` may go on now.
    pub fn can_resume_from_yield_point(&self, yp: &YieldPoint, now: u64) -> (r: bool)
        requires
            self.wf(),
        ensures
            r == resumable(*yp, self.tracker(), self.completed_ids(), now),
    {
        match yp {
            YieldPoint::AwaitingResource { resource_name, access_type } => {
                self.resource_tracker.can_access_resource(resource_name.as_str(), "temp", access_type).is_ok()
            },
            YieldPoint::AwaitingTableQuery { .. } => true,
            YieldPoint::AwaitingSystemCompletion { task_id, .. } => self.has_completed(*task_id),
            YieldPoint::AwaitingSignal { .. } => true,
            YieldPoint::Sleeping { duration, started_at } => {
                let elapsed = if now >= *started_at { now - *started_at } else { 0 };
                elapsed >= *duration
            },
        }
    }
}

impl AsyncSystemRuntime {
    /// The runtime is `before` with the task at `i` replaced by `t`, which has the same
    /// identifier.
    proof fn lemma_replaced(&self, before: AsyncSystemRuntime, i: int, t: AsyncSystemTask)
        requires
            before.wf(),
            0 <= i < before.active_tasks@.len(),
            t.task_id == before.active_tasks@[i].task_id,
            t.resource_handles.wf(),
            t.parameters.wf(),
            self.active_tasks@ == before.active_tasks@.update(i, t),
            self.completed_tasks == before.completed_tasks,
            self.resource_tracker.wf(),
        ensures
            self.wf(),
            self.task_ids() == before.task_ids(),
            self.task(t.task_id.id()) == Some(t),
            forall|id: u64| id != t.task_id.id() ==> #[trigger] self.task(id) == before.task(id),
            self.completed_id_seq() == before.completed_id_seq(),
            forall|id: u64| #[trigger] self.result_of(id) == before.result_of(id),
    {
        assert(self.task_ids() =~= before.task_ids());
        assert forall|k: int| 0 <= k < self.active_tasks@.len() implies (#[trigger] self.active_tasks@[k]).resource_handles.wf()
            && self.active_tasks@[k].parameters.wf() by {
            if k != i {
                assert(self.active_tasks@[k] == before.active_tasks@[k]);
            }
        }
        self.lemma_task_at(i);
        assert forall|id: u64| id != t.task_id.id() implies #[trigger] self.task(id) == before.task(id) by {
            if self.task_ids().contains(id) {
                let j = self.task_ids().index_of(id);
                assert(self.task_ids()[j] == id);
                assert(j != i);
            }
        }
        assert(self.completed_id_seq() =~= before.completed_id_seq());
    }

    /// Records `result` for the task and gives up the resources the task holds.
    fn complete_task(&mut self, task_id: TaskId, result: Result<SystemExecutionResult, AsyncExecutionError>)
        requires
            old(self).wf(),
        ensures
            final(self).wf(),
            final(self).result_of(task_id.id()) == Some(result),
            final(self).completed_ids() == old(self).completed_ids().insert(task_id.id()),
            forall|id: u64| id != task_id.id() ==> #[trigger] final(self).result_of(id) == old(self).result_of(id),
            final(self).task_ids() == old(self).task_ids(),
            forall|id: u64| #[trigger] final(self).task(id) == old(self).task(id),
            final(self).queue() == old(self).queue(),
            final(self).runtime_config() == old(self).runtime_config(),
            match old(self).task(task_id.id()) {
                Some(t) => revoked_on(old(self).tracker(), final(self).tracker(), t.system_def.name@, handle_accesses(t.resource_handles@)),
                None => final(self).tracker() == old(self).tracker(),
            },
    {
        self.record_result(task_id, result);
        let ghost mid = *self;
        match self.find_task(task_id) {
            Some(i) => {
                proof {
                    assert(self.active_tasks@[i as int].resource_handles.wf());
                }
                release_task_resources(
                    &mut self.resource_tracker,
                    &self.active_tasks[i].resource_handles,
                    &self.active_tasks[i].system_def.name,
                );
            },
            None => {},
        }
        proof {
            assert forall|id: u64| #[trigger] self.result_of(id) == mid.result_of(id) by {
                assert(self.completed_id_seq() == mid.completed_id_seq());
            }
            assert forall|id: u64| #[trigger] self.task(id) == mid.task(id) by {
                assert(self.task_ids() == mid.task_ids());
            }
        }
    }

    /// Whether `after` is what marking task `task_id` failed with `error` at `now` makes of
    /// `self`, the queue aside.
    pub open spec fn fail_effect(self, after: Self, task_id: TaskId, error: AsyncExecutionError, now: u64) -> bool {
        &&& after.result_of(task_id.id()) == Some(Err::<SystemExecutionResult, AsyncExecutionError>(error))
        &&& after.completed_ids() == self.completed_ids().insert(task_id.id())
        &&& forall|id: u64| id != task_id.id() ==> #[trigger] after.result_of(id) == self.result_of(id)
        &&& after.task_ids() == self.task_ids()
        &&& forall|id: u64| id != task_id.id() ==> #[trigger] after.task(id) == self.task(id)
        &&& after.runtime_config() == self.runtime_config()
        &&& match self.task(task_id.id()) {
            Some(t) => ({
                let t2 = after.task(task_id.id())->0;
                let acc = handle_accesses(t.resource_handles@);
                &&& after.task(task_id.id()) is Some
                &&& same_task_but_state(t, t2)
                &&& t2.resource_handles == t.resource_handles
                &&& t2.state matches SystemExecutionState::Failed { error: stored, failed_at } && failed_at == now
                    && error_copied(error, stored)
                &&& exists|tm: ResourceTracker| revoked_on(self.tracker(), tm, t.system_def.name@, acc)
                    && #[trigger] revoked_on(tm, after.tracker(), t.system_def.name@, acc)
            }),
            None => after.tracker() == self.tracker() && after.task(task_id.id()) is None,
        }
    }

    /// Marks the task failed with `error` at `now`, gives up its resources and records the
    /// error as its result. The resources are given up a second time on recording, which
    /// changes nothing more.
    pub fn fail_task(&mut self, task_id: TaskId, error: AsyncExecutionError, now: u64)
        requires
            old(self).wf(),
        ensures
            final(self).wf(),
            final(self).queue() == old(self).queue(),
            old(self).fail_effect(*final(self), task_id, error, now),
    {
        match self.find_task(task_id) {
            Some(i) => {
                let ghost before = *self;
                let mut task = self.active_tasks.remove(i);
                proof {
                    assert(task.resource_handles.wf()) by {
                        assert(before.active_tasks@[i as int] == task);
                    }
                }
                task.state = SystemExecutionState::Failed { error: copy_error(&error), failed_at: now };
                release_task_resources(&mut self.resource_tracker, &task.resource_handles, &task.system_def.name);
                let ghost tm = self.resource_tracker;
                let ghost t2 = task;
                self.active_tasks.insert(i, task);
                proof {
                    assert(self.active_tasks@ =~= before.active_tasks@.update(i as int, t2));
                    self.lemma_replaced(before, i as int, t2);
                }
                self.complete_task(task_id, Err(error));
                proof {
                    assert(revoked_on(tm, self.tracker(), t2.system_def.name@, handle_accesses(t2.resource_handles@)));
                }
            },
            None => {
                self.complete_task(task_id, Err(error));
            },
        }
    }

    /// Cancels a submitted task: gives up its resources, marks it cancelled at `now` and
    /// records a cancellation as its result. Fails for a task that is not held.
    pub fn cancel_task(&mut self, task_id: TaskId, now: u64) -> (r: Result<(), AsyncExecutionError>)
        requires
            old(self).wf(),
        ensures
            final(self).wf(),
            r is Ok <==> old(self).task(task_id.id()) is Some,
            r matches Err(e) ==> (e matches AsyncExecutionError::SystemError { system, message }
                && system@ == "unknown"@ && message@ == "Task "@ + task_label(task_id) + " not found"@
                && *final(self) == *old(self)),
            r is Ok ==> ({
                let t = old(self).task(task_id.id())->0;
                let t2 = final(self).task(task_id.id())->0;
                &&& final(self).task(task_id.id()) is Some
                &&& same_task_but_state(t, t2)
                &&& t2.resource_handles == t.resource_handles
                &&& t2.state matches SystemExecutionState::Cancelled { cancelled_at } && cancelled_at == now
                &&& revoked_on(old(self).tracker(), final(self).tracker(), t.system_def.name@, handle_accesses(t.resource_handles@))
                &&& final(self).result_of(task_id.id()) matches Some(Err(AsyncExecutionError::Cancelled { system }))
                    && system@ == t.system_def.name@
                &&& final(self).completed_ids() == old(self).completed_ids().insert(task_id.id())
                &&& forall|id: u64| id != task_id.id() ==> #[trigger] final(self).result_of(id) == old(self).result_of(id)
                &&& final(self).task_ids() == old(self).task_ids()
                &&& forall|id: u64| id != task_id.id() ==> #[trigger] final(self).task(id) == old(self).task(id)
                &&& final(self).queue() == old(self).queue()
            }),
    {
        match self.find_task(task_id) {
            Some(i) => {
                let ghost before = *self;
                let mut task = self.active_tasks.remove(i);
                proof {
                    assert(before.active_tasks@[i as int] == task);
                }
                release_task_resources(&mut self.resource_tracker, &task.resource_handles, &task.system_def.name);
                task.state = SystemExecutionState::Cancelled { cancelled_at: now };
                let name = task.system_def.name.clone();
                let ghost t2 = task;
                self.active_tasks.insert(i, task);
                proof {
                    assert(self.active_tasks@ =~= before.active_tasks@.update(i as int, t2));
                    self.lemma_replaced(before, i as int, t2);
                }
                self.record_result(task_id, Err(AsyncExecutionError::Cancelled { system: name }));
                Ok(())
            },
            None => Err(AsyncExecutionError::SystemError {
                system: "unknown".to_string(),
                message: task_message("Task ", task_id, " not found"),
            }),
        }
    }

    /// Submits a system to run as task `task_id`, which must be new: its parameters are
    /// checked, and the task is queued pending with the given time limit, or the default one.
    pub fn submit_system(
        &mut self,
        task_id: TaskId,
        system_def: SystemDef,
        parameters: StrMap<ColumnValue>,
        priority: TaskPriority,
        timeout: Option<u64>,
        now: u64,
    ) -> (r: Result<SystemFuture, AsyncExecutionError>)
        requires
            old(self).wf(),
            parameters.wf(),
            !old(self).task_ids().contains(task_id.id()),
        ensures
            final(self).wf(),
            r is Ok <==> forall|i: int| 0 <= i < system_def.parameters@.len()
                ==> parameters@.contains_key(#[trigger] param_name(system_def.parameters@[i])),
            r is Err ==> *final(self) == *old(self),
            r matches Err(e) ==> exists|i: int| 0 <= i < system_def.parameters@.len()
                && !parameters@.contains_key(#[trigger] param_name(system_def.parameters@[i]))
                && (forall|j: int| 0 <= j < i ==> parameters@.contains_key(#[trigger] param_name(system_def.parameters@[j])))
                && (e matches AsyncExecutionError::SystemError { system, message }
                    && system@ == system_def.name@ && message@ == missing_message(system_def.parameters@[i])),
            r matches Ok(f) ==> ({
                let t = final(self).task(task_id.id())->0;
                &&& f.task_of() == task_id
                &&& f.priority_of() == priority
                &&& final(self).task_ids() == old(self).task_ids().push(task_id.id())
                &&& final(self).queue() == old(self).queue().push(task_id.id())
                &&& final(self).task(task_id.id()) is Some
                &&& t.task_id == task_id
                &&& t.system_def == system_def
                &&& t.parameters == parameters
                &&& t.state matches SystemExecutionState::Pending
                &&& t.resource_handles@ == Map::<Seq<char>, ResourceHandle>::empty()
                &&& t.priority == priority
                &&& t.timeout == Some(match timeout {
                    Some(d) => d,
                    None => old(self).runtime_config().default_task_timeout,
                })
                &&& t.created_at == now
                &&& t.dependencies@.len() == 0
                &&& forall|id: u64| id != task_id.id() ==> #[trigger] final(self).task(id) == old(self).task(id)
                &&& final(self).tracker() == old(self).tracker()
                &&& forall|id: u64| #[trigger] final(self).result_of(id) == old(self).result_of(id)
                &&& final(self).completed_ids() == old(self).completed_ids()
            }),
    {
        match validate_system_execution(&system_def, &parameters) {
            Ok(()) => {},
            Err(e) => {
                return Err(e);
            },
        }
        let task_timeout = match timeout {
            Some(d) => d,
            None => self.config.default_task_timeout,
        };
        let task = AsyncSystemTask {
            task_id,
            system_def,
            parameters,
            state: SystemExecutionState::Pending,
            resource_handles: StrMap::new(),
            priority,
            timeout: Some(task_timeout),
            created_at: now,
            dependencies: Vec::new(),
        };
        let ghost before = *self;
        let ghost t = task;
        self.active_tasks.push(task);
        self.task_queue.push(task_id);
        proof {
            let ids = before.task_ids();
            assert(self.task_ids() =~= ids.push(task_id.id()));
            assert(self.queue() =~= before.queue().push(task_id.id()));
            assert(self.completed_id_seq() =~= before.completed_id_seq());
            assert forall|k: int| 0 <= k < self.active_tasks@.len() implies (#[trigger] self.active_tasks@[k]).resource_handles.wf()
                && self.active_tasks@[k].parameters.wf() by {
                if k < ids.len() {
                    assert(self.active_tasks@[k] == before.active_tasks@[k]);
                }
            }
            self.lemma_task_at(ids.len() as int);
            assert forall|id: u64| id != task_id.id() implies #[trigger] self.task(id) == before.task(id) by {
                if before.task_ids().contains(id) {
                    let j = before.task_ids().index_of(id);
                    assert(before.task_ids()[j] == id);
                    assert(self.task_ids()[j] == id);
                    let k = self.task_ids().index_of(id);
                    assert(self.task_ids()[k] == id);
                } else if self.task_ids().contains(id) {
                    let k = choose|k: int| 0 <= k < self.task_ids().len() && self.task_ids()[k] == id;
                    assert(k < ids.len());
                    assert(ids[k] == id);
                }
            }
        }
        Ok(SystemFuture::new(task_id, priority))
    }
}

impl AsyncSystemRuntime {
    /// Whether the task has a time limit that has passed at `now`.
    pub open spec fn timed_out(t: AsyncSystemTask, now: u64) -> bool {
        t.timeout is Some && elapsed(now, t.created_at) > t.timeout->0
    }

    /// Puts `task` back at `i`, where a task with its identifier was taken out.
    fn put_back(&mut self, i: usize, task: AsyncSystemTask, Ghost(before): Ghost<AsyncSystemRuntime>)
        requires
            before.wf(),
            i < before.active_tasks@.len(),
            task.task_id == before.active_tasks@[i as int].task_id,
            task.resource_handles.wf(),
            task.parameters.wf(),
            old(self).active_tasks@ == before.active_tasks@.remove(i as int),
            old(self).completed_tasks == before.completed_tasks,
            old(self).resource_tracker.wf(),
        ensures
            final(self).active_tasks@ == before.active_tasks@.update(i as int, task),
            final(self).completed_tasks == old(self).completed_tasks,
            final(self).task_queue == old(self).task_queue,
            final(self).resource_tracker == old(self).resource_tracker,
            final(self).config == old(self).config,
            final(self).wf(),
            final(self).task_ids() == before.task_ids(),
            final(self).task(task.task_id.id()) == Some(task),
            forall|id: u64| id != task.task_id.id() ==> #[trigger] final(self).task(id) == before.task(id),
            forall|id: u64| #[trigger] final(self).result_of(id) == before.result_of(id),
            final(self).completed_ids() == before.completed_ids(),
    {
        let ghost t = task;
        self.active_tasks.insert(i, task);
        proof {
            assert(self.active_tasks@ =~= before.active_tasks@.update(i as int, t));
            self.lemma_replaced(before, i as int, t);
        }
    }

    /// Whether `after` holds what `self` holds, but for its queue: the same tasks, results,
    /// borrows and configuration.
    pub open spec fn same_but_queue(self, after: Self) -> bool {
        &&& after.tasks() == self.tasks()
        &&& after.task_ids() == self.task_ids()
        &&& forall|id: u64| #[trigger] after.task(id) == self.task(id)
        &&& after.completed_entries() == self.completed_entries()
        &&& after.completed_ids() == self.completed_ids()
        &&& forall|id: u64| #[trigger] after.result_of(id) == self.result_of(id)
        &&& after.tracker() == self.tracker()
        &&& after.runtime_config() == self.runtime_config()
    }

    /// Whether `after` and `r` are what one step of task `task_id` at time `now` makes of
    /// `self`, `executor_step` being what its execution plan reported; the queue aside.
    pub open spec fn step_effect(
        self,
        after: Self,
        task_id: TaskId,
        now: u64,
        executor_step: Option<Result<ExecutionStepResult, AsyncExecutionError>>,
        r: Result<TaskStepOutcome, AsyncExecutionError>,
    ) -> bool {
        &&& after.task_ids() == self.task_ids()
        &&& after.runtime_config() == self.runtime_config()
        &&& forall|id: u64| id != task_id.id() ==> #[trigger] after.task(id) == self.task(id)
        &&& forall|id: u64| id != task_id.id() ==> #[trigger] after.result_of(id) == self.result_of(id)
        &&& self.completed_ids().subset_of(after.completed_ids())
        &&& self.task(task_id.id()) is None ==> (r matches Err(AsyncExecutionError::SystemError { system, message })
            && system@ == "async_runtime"@ && message@ == "Task "@ + task_label(task_id) + " not found"@
            && self.same_but_queue(after))
        &&& self.task(task_id.id()) matches Some(t) ==> ({
            let t2 = after.task(task_id.id())->0;
            let name = t.system_def.name@;
            &&& after.task(task_id.id()) is Some
            &&& same_task_but_state(t, t2)
            &&& if Self::timed_out(t, now) {
                &&& r matches Err(AsyncExecutionError::Timeout { system, duration })
                    && system@ == name && duration == t.timeout->0
                &&& self.same_but_queue(after)
            } else {
                match t.state {
                    SystemExecutionState::Pending => {
                        &&& after.completed_ids() == self.completed_ids()
                        &&& after.result_of(task_id.id()) == self.result_of(task_id.id())
                        &&& r is Ok ==> (acquired(self.tracker(), after.tracker(), t.resource_handles@,
                            t2.resource_handles@, name, t.system_def.parameters@, now,
                            self.runtime_config().resource_lease_timeout, Ok(()))
                            && (r matches Ok(TaskStepOutcome::NeedsContinuation))
                            && (t2.state matches SystemExecutionState::Running { started_at } && started_at == now))
                        &&& r matches Err(e) ==> (acquired(self.tracker(), after.tracker(), t.resource_handles@,
                            t2.resource_handles@, name, t.system_def.parameters@, now,
                            self.runtime_config().resource_lease_timeout, Err(e))
                            && t2.state == t.state)
                    },
                    SystemExecutionState::Running { .. } => match executor_step {
                        None => r matches Err(AsyncExecutionError::SystemError { system, message })
                            && system@ == name
                            && message@ == "No execution plan registered for task "@ + task_label(task_id)
                            && self.same_but_queue(after),
                        Some(Err(e)) => r == Err::<TaskStepOutcome, AsyncExecutionError>(e) && self.same_but_queue(after),
                        Some(Ok(ExecutionStepResult::Continue)) => r matches Ok(TaskStepOutcome::NeedsContinuation)
                            && self.same_but_queue(after),
                        Some(Ok(ExecutionStepResult::Yield(yp))) => {
                            &&& r == Ok::<TaskStepOutcome, AsyncExecutionError>(TaskStepOutcome::Waiting(Some(yp)))
                            &&& t2.state matches SystemExecutionState::Suspended { yield_point, suspended_at }
                                && yield_point == yp && suspended_at == now
                            &&& t2.resource_handles == t.resource_handles
                            &&& after.tracker() == self.tracker()
                            &&& after.completed_ids() == self.completed_ids()
                            &&& after.result_of(task_id.id()) == self.result_of(task_id.id())
                        },
                        Some(Ok(ExecutionStepResult::Completed(res))) => {
                            &&& r == Ok::<TaskStepOutcome, AsyncExecutionError>(TaskStepOutcome::Completed(res))
                            &&& t2.state matches SystemExecutionState::Completed { result, completed_at }
                                && result_copied(res, result) && completed_at == now
                            &&& t2.resource_handles == t.resource_handles
                            &&& after.completed_ids() == self.completed_ids().insert(task_id.id())
                            &&& after.result_of(task_id.id()) matches Some(Ok(recorded)) && result_copied(res, recorded)
                            &&& revoked_on(self.tracker(), after.tracker(), name, handle_accesses(t.resource_handles@))
                        },
                    },
                    SystemExecutionState::Suspended { yield_point, .. } => if resumable(
                        yield_point,
                        self.tracker(),
                        self.completed_ids(),
                        now,
                    ) {
                        &&& r matches Ok(TaskStepOutcome::NeedsContinuation)
                        &&& t2.state matches SystemExecutionState::Running { started_at } && started_at == now
                        &&& t2.resource_handles == t.resource_handles
                        &&& after.tracker() == self.tracker()
                        &&& after.completed_ids() == self.completed_ids()
                        &&& after.result_of(task_id.id()) == self.result_of(task_id.id())
                    } else {
                        r == Ok::<TaskStepOutcome, AsyncExecutionError>(TaskStepOutcome::Waiting(Some(yield_point)))
                            && self.same_but_queue(after)
                    },
                    SystemExecutionState::Completed { result, .. } => r matches Ok(TaskStepOutcome::Completed(x))
                        && result_copied(result, x) && self.same_but_queue(after),
                    _ => r matches Ok(TaskStepOutcome::Waiting(None)) && self.same_but_queue(after),
                }
            }
        })
    }

    /// Takes one step of task `task_id` at time `now`. A task past its time limit fails with
    /// a timeout. A pending task acquires its resources and starts running. For a running task,
    /// `executor_step` is what its execution plan reported for this step (`None` when no plan
    /// is registered): the task goes on, yields and waits, or completes, and its result is
    /// recorded and its resources given up. A suspended task runs again once its yield point
    /// allows it. A completed task reports its result again; a failed or cancelled one waits.
    pub fn execute_task_step(
        &mut self,
        task_id: TaskId,
        now: u64,
        executor_step: Option<Result<ExecutionStepResult, AsyncExecutionError>>,
    ) -> (r: Result<TaskStepOutcome, AsyncExecutionError>)
        requires
            old(self).wf(),
        ensures
            final(self).wf(),
            final(self).queue() == old(self).queue(),
            old(self).step_effect(*final(self), task_id, now, executor_step, r),
    {
        let i = match self.find_task(task_id) {
            Some(i) => i,
            None => {
                return Err(AsyncExecutionError::SystemError {
                    system: "async_runtime".to_string(),
                    message: task_message("Task ", task_id, " not found"),
                });
            },
        };
        proof {
            self.lemma_task_at(i as int);
        }
        match self.active_tasks[i].timeout {
            Some(limit) => {
                let created = self.active_tasks[i].created_at;
                let passed = if now >= created { now - created } else { 0 };
                if passed > limit {
                    return Err(AsyncExecutionError::Timeout {
                        system: self.active_tasks[i].system_def.name.clone(),
                        duration: limit,
                    });
                }
            },
            None => {},
        }
        let kind: u8 = match &self.active_tasks[i].state {
            SystemExecutionState::Pending => 0,
            SystemExecutionState::Running { .. } => 1,
            SystemExecutionState::Suspended { yield_point, .. } => {
                if self.can_resume_from_yield_point(yield_point, now) {
                    2
                } else {
                    3
                }
            },
            SystemExecutionState::Completed { .. } => 4,
            _ => 5,
        };
        let ghost before = *self;
        if kind == 0 {
            let mut task = self.active_tasks.remove(i);
            proof {
                assert(before.active_tasks@[i as int] == task);
            }
            let lease = self.config.resource_lease_timeout;
            let res = acquire_task_resources(
                &mut self.resource_tracker,
                &mut task.resource_handles,
                &task.system_def.name,
                &task.system_def.parameters,
                now,
                lease,
            );
            match res {
                Ok(()) => {
                    task.state = SystemExecutionState::Running { started_at: now };
                    self.put_back(i, task, Ghost(before));
                    Ok(TaskStepOutcome::NeedsContinuation)
                },
                Err(e) => {
                    self.put_back(i, task, Ghost(before));
                    Err(e)
                },
            }
        } else if kind == 1 {
            match executor_step {
                None => {
                    let message = task_message("No execution plan registered for task ", task_id, "");
                    proof {
                        reveal_strlit("");
                        assert(message@ =~= "No execution plan registered for task "@ + task_label(task_id));
                    }
                    Err(AsyncExecutionError::SystemError { system: self.active_tasks[i].system_def.name.clone(), message })
                },
                Some(Err(e)) => Err(e),
                Some(Ok(ExecutionStepResult::Continue)) => Ok(TaskStepOutcome::NeedsContinuation),
                Some(Ok(ExecutionStepResult::Yield(yp))) => {
                    let mut task = self.active_tasks.remove(i);
                    proof {
                        assert(before.active_tasks@[i as int] == task);
                    }
                    task.state = SystemExecutionState::Suspended { yield_point: copy_yield_point(&yp), suspended_at: now };
                    self.put_back(i, task, Ghost(before));
                    Ok(TaskStepOutcome::Waiting(Some(yp)))
                },
                Some(Ok(ExecutionStepResult::Completed(result))) => {
                    let mut task = self.active_tasks.remove(i);
                    proof {
                        assert(before.active_tasks@[i as int] == task);
                    }
                    task.state = SystemExecutionState::Completed { result: copy_result(&result), completed_at: now };
                    self.put_back(i, task, Ghost(before));
                    let recorded = copy_result(&result);
                    self.complete_task(task_id, Ok(recorded));
                    Ok(TaskStepOutcome::Completed(result))
                },
            }
        } else if kind == 2 {
            let mut task = self.active_tasks.remove(i);
            proof {
                assert(before.active_tasks@[i as int] == task);
            }
            task.state = SystemExecutionState::Running { started_at: now };
            self.put_back(i, task, Ghost(before));
            Ok(TaskStepOutcome::NeedsContinuation)
        } else if kind == 3 {
            match &self.active_tasks[i].state {
                SystemExecutionState::Suspended { yield_point, .. } => Ok(TaskStepOutcome::Waiting(Some(copy_yield_point(yield_point)))),
                _ => {
                    assert(false);
                    Ok(TaskStepOutcome::Waiting(None))
                },
            }
        } else if kind == 4 {
            match &self.active_tasks[i].state {
                SystemExecutionState::Completed { result, .. } => Ok(TaskStepOutcome::Completed(copy_result(result))),
                _ => {
                    assert(false);
                    Ok(TaskStepOutcome::Waiting(None))
                },
            }
        } else {
            Ok(TaskStepOutcome::Waiting(None))
        }
    }
}

/// How many of the tasks have failed.
pub open spec fn failed_count(ts: Seq<AsyncSystemTask>) -> nat
    decreases ts.len(),
{
    if ts.len() == 0 {
        0
    } else {
        failed_count(ts.drop_last()) + if ts.last().state is Failed { 1nat } else { 0nat }
    }
}

/// How many of the tasks were cancelled.
pub open spec fn cancelled_count(ts: Seq<AsyncSystemTask>) -> nat
    decreases ts.len(),
{
    if ts.len() == 0 {
        0
    } else {
        cancelled_count(ts.drop_last()) + if ts.last().state is Cancelled { 1nat } else { 0nat }
    }
}

proof fn lemma_counts_bounded(ts: Seq<AsyncSystemTask>)
    ensures
        failed_count(ts) <= ts.len(),
        cancelled_count(ts) <= ts.len(),
    decreases ts.len(),
{
    if ts.len() > 0 {
        lemma_counts_bounded(ts.drop_last());
    }
}

impl AsyncSystemRuntime {
    /// The submitted tasks, in order.
    pub closed spec fn tasks(&self) -> Seq<AsyncSystemTask> {
        self.active_tasks@
    }

    /// Takes a step of the first task in the queue, at time `now`, with `executor_step` as
    /// what its execution plan reported when it is running. The task leaves the front of the
    /// queue; it joins the back exactly when the step asks for a continuation, and a step that
    /// fails marks the task failed with that error. Answers whether there was a task to step.
    pub fn tick(&mut self, now: u64, executor_step: Option<Result<ExecutionStepResult, AsyncExecutionError>>) -> (r: Result<bool, AsyncExecutionError>)
        requires
            old(self).wf(),
        ensures
            final(self).wf(),
            r == Ok::<bool, AsyncExecutionError>(old(self).queue().len() > 0),
            old(self).queue().len() == 0 ==> *final(self) == *old(self),
            old(self).queue().len() > 0 ==> ({
                let id = old(self).queue()[0];
                exists|t: TaskId, stepped: Self, step: Result<TaskStepOutcome, AsyncExecutionError>|
                    t.id() == id && #[trigger] old(self).step_effect(stepped, t, now, executor_step, step) && match step {
                        Ok(TaskStepOutcome::NeedsContinuation) => stepped.same_but_queue(*final(self))
                            && final(self).queue() == old(self).queue().drop_first().push(id),
                        Ok(_) => stepped.same_but_queue(*final(self)) && final(self).queue() == old(self).queue().drop_first(),
                        Err(e) => stepped.fail_effect(*final(self), t, e, now)
                            && final(self).queue() == old(self).queue().drop_first(),
                    }
            }),
            old(self).queue().len() > 0 ==> ({
                let id = old(self).queue()[0];
                &&& final(self).task_ids() == old(self).task_ids()
                &&& forall|x: u64| x != id ==> #[trigger] final(self).task(x) == old(self).task(x)
                &&& forall|x: u64| x != id ==> #[trigger] final(self).result_of(x) == old(self).result_of(x)
                &&& old(self).completed_ids().subset_of(final(self).completed_ids())
                &&& old(self).task(id) is None ==> final(self).result_of(id) matches Some(Err(
                    AsyncExecutionError::SystemError { .. },
                ))
            }),
    {
        if self.task_queue.len() == 0 {
            return Ok(false);
        }
        let ghost q = self.queue();
        let task_id = self.task_queue.remove(0);
        proof {
            assert(self.queue() =~= q.drop_first());
            assert(task_id.id() == q[0]);
        }
        let ghost mid = *self;
        let step = self.execute_task_step(task_id, now, executor_step);
        let ghost stepped = *self;
        let ghost step_result = step;
        proof {
            assert(old(self).step_effect(stepped, task_id, now, executor_step, step_result));
        }
        match step {
            Ok(TaskStepOutcome::NeedsContinuation) => {
                let ghost q1 = self.queue();
                self.task_queue.push(task_id);
                proof {
                    assert forall|x: u64| #[trigger] self.task(x) == stepped.task(x) by {
                        assert(self.task_ids() == stepped.task_ids());
                    }
                    assert forall|x: u64| #[trigger] self.result_of(x) == stepped.result_of(x) by {
                        assert(self.completed_id_seq() == stepped.completed_id_seq());
                    }
                    assert(self.queue() =~= q1.push(task_id.id()));
                    assert(self.queue() == q.drop_first().push(q[0]));
                    assert(forall|x: u64| x != task_id.id() ==> #[trigger] self.task(x) == old(self).task(x));
                    assert(forall|x: u64| x != task_id.id() ==> #[trigger] self.result_of(x) == old(self).result_of(x));
                    assert(old(self).completed_ids().subset_of(self.completed_ids()));
                    assert(self.task_ids() == old(self).task_ids());
                }
                Ok(true)
            },
            Ok(_) => {
                proof {
                    assert(self.queue() == q.drop_first());
                    assert(forall|x: u64| x != task_id.id() ==> #[trigger] self.task(x) == old(self).task(x));
                    assert(forall|x: u64| x != task_id.id() ==> #[trigger] self.result_of(x) == old(self).result_of(x));
                    assert(old(self).completed_ids().subset_of(self.completed_ids()));
                    assert(self.task_ids() == old(self).task_ids());
                }
                Ok(true)
            },
            Err(err) => {
                let ghost e = err;
                let ghost before_fail = *self;
                self.fail_task(task_id, err, now);
                proof {
                    assert(self.queue() == mid.queue());
                    assert(self.result_of(task_id.id()) == Some(Err::<SystemExecutionResult, AsyncExecutionError>(e)));
                    if old(self).task(task_id.id()) is None {
                        assert(e is SystemError);
                    }
                    assert(old(self).completed_ids().subset_of(self.completed_ids()));
                    assert(self.queue() == q.drop_first());
                    assert(forall|x: u64| x != task_id.id() ==> #[trigger] self.task(x) == old(self).task(x));
                    assert(forall|x: u64| x != task_id.id() ==> #[trigger] self.result_of(x) == old(self).result_of(x));
                    assert(self.task_ids() == old(self).task_ids());
                }
                Ok(true)
            },
        }
    }

    /// Counts of the runtime's tasks.
    pub fn get_stats(&self) -> (r: RuntimeStats)
        requires
            self.wf(),
            self.tasks().len() + self.completed_id_seq().len() <= usize::MAX,
        ensures
            r.total_tasks_created == self.tasks().len() + self.completed_id_seq().len(),
            r.active_tasks == self.tasks().len(),
            r.queued_tasks == self.queue().len(),
            r.completed_tasks == self.completed_id_seq().len(),
            r.failed_tasks == failed_count(self.tasks()),
            r.cancelled_tasks == cancelled_count(self.tasks()),
            r.resource_contentions == 0,
    {
        let n = self.active_tasks.len();
        let mut failed: usize = 0;
        let mut cancelled: usize = 0;
        let mut i: usize = 0;
        assert(self.active_tasks@.take(0) =~= Seq::<AsyncSystemTask>::empty());
        while i < n
            invariant
                n == self.active_tasks@.len(),
                i <= n,
                failed == failed_count(self.active_tasks@.take(i as int)),
                cancelled == cancelled_count(self.active_tasks@.take(i as int)),
            decreases n - i,
        {
            let ghost t = self.active_tasks@.take(i + 1);
            proof {
                assert(t.drop_last() =~= self.active_tasks@.take(i as int));
                lemma_counts_bounded(t);
            }
            match self.active_tasks[i].state {
                SystemExecutionState::Failed { .. } => {
                    failed = failed + 1;
                },
                SystemExecutionState::Cancelled { .. } => {
                    cancelled = cancelled + 1;
                },
                _ => {},
            }
            i = i + 1;
        }
        assert(self.active_tasks@.take(i as int) =~= self.active_tasks@);
        let total = n + self.completed_tasks.len();
        RuntimeStats {
            total_tasks_created: total,
            active_tasks: n,
            queued_tasks: self.task_queue.len(),
            completed_tasks: self.completed_tasks.len(),
            failed_tasks: failed,
            cancelled_tasks: cancelled,
            resource_contentions: 0,
        }
    }
}

/// What acquiring the resource parameters `ps` for `s` did: on success every resource
/// parameter was granted and has a handle; on failure the first refused one stopped it, and
/// what came before it stays granted.
pub open spec fn acquired(
    t0: ResourceTracker,
    t1: ResourceTracker,
    h0: Map<Seq<char>, ResourceHandle>,
    h1: Map<Seq<char>, ResourceHandle>,
    s: Seq<char>,
    ps: Seq<SystemParameter>,
    now: u64,
    lease: u64,
    r: Result<(), AsyncExecutionError>,
) -> bool {
    &&& r is Ok ==> grants_params(t0, t1, s, ps) && h1 == handles_after(h0, ps, now, lease)
    &&& r matches Err(e) ==> exists|k: int| 0 <= k < ps.len() && ({
        &&& grants_params(t0, t1, s, ps.take(k))
        &&& h1 == handles_after(h0, ps.take(k), now, lease)
        &&& #[trigger] ps[k] matches SystemParameter::Resource { name, access, .. }
            && !t1.access_allowed(name@, s, access)
            && (e matches AsyncExecutionError::SchedulingError(se) && t1.refusal(name@, s, access, se))
    })
}

/// The text by which a task is named in messages: `TaskId(n)`.
pub open spec fn task_label(id: TaskId) -> Seq<char> {
    "TaskId("@ + decimal(id.id() as nat) + ")"@
}

/// The time passed from `from` to `now`, or nothing when `now` is earlier.
pub open spec fn elapsed(now: u64, from: u64) -> int {
    if now >= from {
        now - from
    } else {
        0
    }
}

/// Whether `b` is `a` with possibly another state and other handles.
pub open spec fn same_task_but_state(a: AsyncSystemTask, b: AsyncSystemTask) -> bool {
    &&& b.task_id == a.task_id
    &&& b.system_def == a.system_def
    &&& b.parameters == a.parameters
    &&& b.priority == a.priority
    &&& b.timeout == a.timeout
    &&& b.created_at == a.created_at
    &&& b.dependencies == a.dependencies
}

fn task_message(prefix: &str, task_id: TaskId, suffix: &str) -> (r: String)
    ensures
        r@ == prefix@ + task_label(task_id) + suffix@,
{
    let mut m = String::new();
    m.append(prefix);
    m.append("TaskId(");
    push_decimal(&mut m, task_id.as_u64());
    m.append(")");
    m.append(suffix);
    proof {
        assert(m@ =~= prefix@ + task_label(task_id) + suffix@);
    }
    m
}

impl AsyncSystemRuntime {
    /// The result recorded for task `id`, when there is one.
    pub closed spec fn result_of(&self, id: u64) -> Option<Result<SystemExecutionResult, AsyncExecutionError>> {
        if self.completed_id_seq().contains(id) {
            Some(self.completed_tasks@[self.completed_id_seq().index_of(id)].1)
        } else {
            None
        }
    }

    proof fn lemma_task_at(&self, i: int)
        requires
            self.wf(),
            0 <= i < self.active_tasks@.len(),
        ensures
            self.task(self.active_tasks@[i].task_id.id()) == Some(self.active_tasks@[i]),
            self.task_ids()[i] == self.active_tasks@[i].task_id.id(),
    {
        let id = self.active_tasks@[i].task_id.id();
        assert(self.task_ids()[i] == id);
        assert(self.task_ids().contains(id));
        self.task_ids().index_of_first_ensures(id);
        let j = self.task_ids().index_of(id);
        assert(self.task_ids()[j] == id);
    }

    proof fn lemma_completed_at(&self, i: int)
        requires
            self.wf(),
            0 <= i < self.completed_tasks@.len(),
        ensures
            self.result_of(self.completed_tasks@[i].0.id()) == Some(self.completed_tasks@[i].1),
            self.completed_id_seq()[i] == self.completed_tasks@[i].0.id(),
    {
        let id = self.completed_tasks@[i].0.id();
        assert(self.completed_id_seq()[i] == id);
        assert(self.completed_id_seq().contains(id));
        let j = self.completed_id_seq().index_of(id);
        assert(self.completed_id_seq()[j] == id);
    }

    /// Where task `task_id` is kept, if it was submitted.
    fn find_task(&self, task_id: TaskId) -> (r: Option<usize>)
        requires
            self.wf(),
        ensures
            match r {
                Some(i) => i < self.active_tasks@.len() && self.active_tasks@[i as int].task_id == task_id
                    && self.task(task_id.id()) == Some(self.active_tasks@[i as int]),
                None => self.task(task_id.id()) is None,
            },
    {
        let mut i: usize = 0;
        while i < self.active_tasks.len()
            invariant
                self.wf(),
                i <= self.active_tasks@.len(),
                forall|j: int| 0 <= j < i ==> self.task_ids()[j] != task_id.id(),
            decreases self.active_tasks@.len() - i,
        {
            if self.active_tasks[i].task_id.as_u64() == task_id.as_u64() {
                proof {
                    self.lemma_task_at(i as int);
                    assert(self.active_tasks@[i as int].task_id == task_id);
                }
                return Some(i);
            }
            proof {
                assert(self.task_ids()[i as int] == self.active_tasks@[i as int].task_id.id());
            }
            i = i + 1;
        }
        proof {
            if self.task_ids().contains(task_id.id()) {
                let j = choose|j: int| 0 <= j < self.task_ids().len() && self.task_ids()[j] == task_id.id();
            }
        }
        None
    }

    /// The recorded results, in the order they were recorded.
    pub closed spec fn completed_entries(&self) -> Seq<(TaskId, Result<SystemExecutionResult, AsyncExecutionError>)> {
        self.completed_tasks@
    }

    /// The runtime is `before` with the task at `i` taken out.
    proof fn lemma_removed(&self, before: AsyncSystemRuntime, i: int)
        requires
            before.wf(),
            0 <= i < before.active_tasks@.len(),
            self.active_tasks@ == before.active_tasks@.remove(i),
            self.completed_tasks == before.completed_tasks,
            self.resource_tracker.wf(),
        ensures
            self.wf(),
            self.task(before.active_tasks@[i].task_id.id()) is None,
            forall|id: u64| id != before.active_tasks@[i].task_id.id() ==> #[trigger] self.task(id) == before.task(id),
    {
        let x = before.active_tasks@[i].task_id.id();
        let ids = before.task_ids();
        assert(self.task_ids() =~= ids.remove(i));
        assert(ids[i] == x);
        assert forall|a: int, b: int| 0 <= a < b < self.task_ids().len() implies self.task_ids()[a] != self.task_ids()[b] by {
            let a2 = if a < i { a } else { a + 1 };
            let b2 = if b < i { b } else { b + 1 };
            assert(self.task_ids()[a] == ids[a2]);
            assert(self.task_ids()[b] == ids[b2]);
        }
        assert forall|k: int| 0 <= k < self.active_tasks@.len() implies (#[trigger] self.active_tasks@[k]).resource_handles.wf()
            && self.active_tasks@[k].parameters.wf() by {
            let k2 = if k < i { k } else { k + 1 };
            assert(self.active_tasks@[k] == before.active_tasks@[k2]);
        }
        assert(self.task_ids().no_duplicates());
        assert(!self.task_ids().contains(x)) by {
            if self.task_ids().contains(x) {
                let k = choose|k: int| 0 <= k < self.task_ids().len() && self.task_ids()[k] == x;
                let k2 = if k < i { k } else { k + 1 };
                assert(ids[k2] == x);
            }
        }
        assert forall|id: u64| id != x implies #[trigger] self.task(id) == before.task(id) by {
            if self.task_ids().contains(id) {
                let k = choose|k: int| 0 <= k < self.task_ids().len() && self.task_ids()[k] == id;
                let k2 = if k < i { k } else { k + 1 };
                assert(self.active_tasks@[k] == before.active_tasks@[k2]);
                self.lemma_task_at(k);
                before.lemma_task_at(k2);
            } else if before.task_ids().contains(id) {
                let k2 = choose|k: int| 0 <= k < ids.len() && ids[k] == id;
                assert(k2 != i);
                let k = if k2 < i { k2 } else { k2 - 1 };
                assert(self.task_ids()[k] == id);
            }
        }
    }

    /// Hands out the recorded results, in the order they were recorded, each with the system,
    /// parameters and priority of its task, which the runtime then no longer holds. Afterwards
    /// no result is recorded.
    pub fn drain_completed_tasks(&mut self) -> (r: Vec<CompletedTaskInfo>)
        requires
            old(self).wf(),
        ensures
            final(self).wf(),
            r@.len() == old(self).completed_entries().len(),
            forall|k: int| 0 <= k < r@.len() ==> #[trigger] reports_completion(
                r@[k],
                old(self).completed_entries()[k],
                old(self).task(old(self).completed_entries()[k].0.id()),
            ),
            final(self).completed_ids() == Set::<u64>::empty(),
            forall|id: u64| #[trigger] final(self).task(id) == if old(self).completed_ids().contains(id) {
                None
            } else {
                old(self).task(id)
            },
            final(self).queue() == old(self).queue(),
            final(self).tracker() == old(self).tracker(),
            final(self).runtime_config() == old(self).runtime_config(),
    {
        let ghost start = *self;
        let mut entries: Vec<(TaskId, Result<SystemExecutionResult, AsyncExecutionError>)> = Vec::new();
        std::mem::swap(&mut entries, &mut self.completed_tasks);
        let ghost all = entries@;
        let total = entries.len();
        let ghost all_ids = start.completed_id_seq();
        proof {
            assert(self.completed_id_seq() =~= Seq::<u64>::empty());
            assert forall|id: u64| #[trigger] self.task(id) == start.task(id) by {
                assert(self.task_ids() == start.task_ids());
            }
        }
        let mut drained: Vec<CompletedTaskInfo> = Vec::new();
        let mut k: usize = 0;
        while entries.len() > 0
            invariant
                self.wf(),
                self.completed_tasks@.len() == 0,
                self.task_queue == start.task_queue,
                self.resource_tracker == start.resource_tracker,
                self.config == start.config,
                all == start.completed_tasks@,
                all.len() == total,
                all_ids == start.completed_id_seq(),
                all_ids.no_duplicates(),
                k <= all.len(),
                entries@ == all.skip(k as int),
                drained@.len() == k,
                forall|j: int| 0 <= j < k ==> #[trigger] reports_completion(
                    drained@[j],
                    all[j],
                    start.task(all[j].0.id()),
                ),
                forall|id: u64| #[trigger] self.task(id) == if all_ids.take(k as int).contains(id) {
                    None
                } else {
                    start.task(id)
                },
            decreases entries@.len(),
        {
            let ghost before = *self;
            let entry = entries.remove(0);
            let (task_id, result) = entry;
            proof {
                assert(all.skip(k as int).len() == all.len() - k);
                assert(k < all.len());
                assert(all.skip(k as int)[0] == all[k as int]);
                assert(entries@ =~= all.skip(k + 1));
                assert(all_ids[k as int] == task_id.id());
                assert(!all_ids.take(k as int).contains(task_id.id())) by {
                    if all_ids.take(k as int).contains(task_id.id()) {
                        let j = choose|j: int| 0 <= j < k && all_ids.take(k as int)[j] == task_id.id();
                        assert(all_ids[j] == all_ids[k as int]);
                    }
                }
                assert(all_ids.take(k + 1) =~= all_ids.take(k as int).push(task_id.id()));
            }
            match self.find_task(task_id) {
                Some(i) => {
                    let task = self.active_tasks.remove(i);
                    proof {
                        self.lemma_removed(before, i as int);
                    }
                    drained.push(
                        CompletedTaskInfo {
                            task_id,
                            system_def: Some(task.system_def),
                            parameters: Some(task.parameters),
                            priority: task.priority,
                            result,
                        },
                    );
                },
                None => {
                    drained.push(
                        CompletedTaskInfo {
                            task_id,
                            system_def: None,
                            parameters: None,
                            priority: TaskPriority::Normal,
                            result,
                        },
                    );
                },
            }
            proof {
                assert(before.task(task_id.id()) == start.task(task_id.id()));
                assert forall|id: u64| #[trigger] self.task(id) == if all_ids.take(k + 1).contains(id) {
                    None
                } else {
                    start.task(id)
                } by {
                    if id != task_id.id() {
                        let next = all_ids.take(k + 1);
                        let prev = all_ids.take(k as int);
                        assert(next.contains(id) == prev.contains(id)) by {
                            if next.contains(id) {
                                let j = choose|j: int| 0 <= j < next.len() && next[j] == id;
                                assert(prev[j] == id);
                            }
                            if prev.contains(id) {
                                let j = choose|j: int| 0 <= j < prev.len() && prev[j] == id;
                                assert(next[j] == id);
                            }
                        }
                        assert(self.task(id) == before.task(id));
                    } else {
                        assert(all_ids.take(k + 1)[k as int] == id);
                    }
                }
                assert(drained@[k as int].task_id == all[k as int].0);
            }
            k = k + 1;
        }
        proof {
            assert(all_ids.take(k as int) =~= all_ids);
            assert(self.completed_ids() =~= Set::<u64>::empty()) by {
                assert(self.completed_id_seq() =~= Seq::<u64>::empty());
            }
            assert forall|id: u64| start.completed_ids().contains(id) == all_ids.contains(id) by {}
        }
        drained
    }

    /// Whether task `task_id` was submitted and is still held.
    pub fn has_task(&self, task_id: TaskId) -> (r: bool)
        requires
            self.wf(),
        ensures
            r == self.task_ids().contains(task_id.id()),
    {
        self.find_task(task_id).is_some()
    }

    /// Records `result` for task `task_id`, replacing an earlier one.
    fn record_result(&mut self, task_id: TaskId, result: Result<SystemExecutionResult, AsyncExecutionError>)
        requires
            old(self).wf(),
        ensures
            final(self).wf(),
            final(self).result_of(task_id.id()) == Some(result),
            final(self).completed_ids() == old(self).completed_ids().insert(task_id.id()),
            forall|id: u64| id != task_id.id() ==> #[trigger] final(self).result_of(id) == old(self).result_of(id),
            final(self).active_tasks == old(self).active_tasks,
            final(self).task_queue == old(self).task_queue,
            final(self).resource_tracker == old(self).resource_tracker,
            final(self).config == old(self).config,
    {
        let mut i: usize = 0;
        while i < self.completed_tasks.len()
            invariant
                self.wf(),
                *self == *old(self),
                i <= self.completed_tasks@.len(),
                forall|j: int| 0 <= j < i ==> self.completed_id_seq()[j] != task_id.id(),
            decreases self.completed_tasks@.len() - i,
        {
            if self.completed_tasks[i].0.as_u64() == task_id.as_u64() {
                let ghost before = *self;
                let ghost ids = self.completed_id_seq();
                self.completed_tasks.set(i, (task_id, result));
                proof {
                    assert(self.completed_id_seq() =~= ids);
                    self.lemma_completed_at(i as int);
                    assert forall|id: u64| id != task_id.id() implies #[trigger] self.result_of(id) == before.result_of(id) by {
                        if ids.contains(id) {
                            let j = ids.index_of(id);
                            assert(ids[j] == id);
                            assert(j != i);
                        }
                    }
                    assert(ids.contains(task_id.id()) && ids[i as int] == task_id.id());
                    assert(self.completed_ids() =~= before.completed_ids().insert(task_id.id()));
                }
                return;
            }
            proof {
                assert(self.completed_id_seq()[i as int] == self.completed_tasks@[i as int].0.id());
            }
            i = i + 1;
        }
        let ghost before = *self;
        let ghost ids = self.completed_id_seq();
        proof {
            assert(!ids.contains(task_id.id())) by {
                if ids.contains(task_id.id()) {
                    let j = choose|j: int| 0 <= j < ids.len() && ids[j] == task_id.id();
                }
            }
        }
        self.completed_tasks.push((task_id, result));
        proof {
            assert(self.completed_id_seq() =~= ids.push(task_id.id()));
            self.lemma_completed_at(ids.len() as int);
            assert forall|id: u64| id != task_id.id() implies #[trigger] self.result_of(id) == before.result_of(id) by {
                if ids.contains(id) {
                    let j = ids.index_of(id);
                    assert(ids[j] == id);
                    assert(self.completed_id_seq()[j] == id);
                    assert(self.completed_id_seq().index_of(id) == j) by {
                        let k = self.completed_id_seq().index_of(id);
                        assert(self.completed_id_seq()[k] == id);
                    }
                } else {
                    assert(!self.completed_id_seq().contains(id)) by {
                        if self.completed_id_seq().contains(id) {
                            let k = choose|k: int| 0 <= k < self.completed_id_seq().len() && self.completed_id_seq()[k] == id;
                            assert(k < ids.len());
                            assert(ids[k] == id);
                        }
                    }
                }
            }
            ids.lemma_push_to_set_commute(task_id.id());
        }
    }
}

/// Grants `system` each resource parameter of `params` in order, recording a handle before
/// each grant; stops at the first that is not allowed, keeping what was granted before it.
pub fn acquire_task_resources(
    tracker: &mut ResourceTracker,
    handles: &mut StrMap<ResourceHandle>,
    system: &String,
    params: &Vec<SystemParameter>,
    now: u64,
    lease: u64,
) -> (r: Result<(), AsyncExecutionError>)
    requires
        old(tracker).wf(),
        old(handles).wf(),
    ensures
        final(tracker).wf(),
        final(handles).wf(),
        acquired(*old(tracker), *final(tracker), old(handles)@, final(handles)@, system@, params@, now, lease, r),
{
    let mut i: usize = 0;
    let ghost mut chain: Seq<ResourceTracker> = seq![*tracker];
    assert(params@.take(0) =~= Seq::<SystemParameter>::empty());
    assert(grant_chain(chain, *old(tracker), *tracker, system@, params@.take(0)));
    while i < params.len()
        invariant
            i <= params@.len(),
            tracker.wf(),
            handles.wf(),
            grant_chain(chain, *old(tracker), *tracker, system@, params@.take(i as int)),
            handles@ == handles_after(old(handles)@, params@.take(i as int), now, lease),
        decreases params@.len() - i,
    {
        let ghost tm = *tracker;
        let ghost t = params@.take(i + 1);
        proof {
            assert(t.drop_last() =~= params@.take(i as int));
            assert(t.last() == params@[i as int]);
        }
        match &params[i] {
            SystemParameter::Resource { name, access, .. } => {
                match tracker.can_access_resource(name.as_str(), system.as_str(), access) {
                    Ok(()) => {},
                    Err(e) => {
                        proof {
                            assert(grants_params(*old(tracker), *tracker, system@, params@.take(i as int)));
                        }
                        return Err(AsyncExecutionError::SchedulingError(e));
                    },
                }
                let handle = ResourceHandle {
                    resource_name: name.clone(),
                    access_type: *access,
                    acquired_at: now,
                    lease_duration: Some(lease),
                };
                handles.insert(name.clone(), handle);
                match tracker.add_access(name.as_str(), system.as_str(), access) {
                    Ok(()) => {},
                    Err(e) => {
                        assert(false);
                        return Err(AsyncExecutionError::SchedulingError(e));
                    },
                }
                proof {
                    assert(param_step(tm, *tracker, system@, t.last()));
                    chain = chain.push(*tracker);
                    assert(grant_chain(chain, *old(tracker), *tracker, system@, t));
                }
            },
            _ => {
                proof {
                    assert(param_step(tm, *tracker, system@, t.last()));
                    chain = chain.push(*tracker);
                    assert(grant_chain(chain, *old(tracker), *tracker, system@, t));
                }
            },
        }
        i = i + 1;
    }
    assert(params@.take(i as int) =~= params@);
    assert(grants_params(*old(tracker), *tracker, system@, params@));
    Ok(())
}

/// The access of each held resource, by name.
pub open spec fn handle_accesses(h: Map<Seq<char>, ResourceHandle>) -> Map<Seq<char>, ResourceAccess> {
    Map::new(|k: Seq<char>| h.contains_key(k), |k: Seq<char>| h[k].access_type)
}

/// Gives up, for `system`, the access recorded in each handle.
pub fn release_task_resources(tracker: &mut ResourceTracker, handles: &StrMap<ResourceHandle>, system: &String)
    requires
        old(tracker).wf(),
        handles.wf(),
    ensures
        final(tracker).wf(),
        revoked_on(*old(tracker), *final(tracker), system@, handle_accesses(handles@)),
{
    let ghost t0 = *tracker;
    let ghost acc = handle_accesses(handles@);
    let count = handles.entry_count();
    proof {
        handles.lemma_dom();
    }
    let ghost keys = handles.key_seq();
    let mut k: usize = 0;
    assert(keys.take(0).to_set() =~= Set::<Seq<char>>::empty());
    while k < count
        invariant
            tracker.wf(),
            handles.wf(),
            acc == handle_accesses(handles@),
            keys == handles.key_seq(),
            keys.no_duplicates(),
            count == keys.len(),
            k <= count,
            forall|i: int| 0 <= i < keys.len() ==> handles@.contains_key(#[trigger] keys[i]),
            revoked_on_keys(t0, *tracker, system@, acc, keys.take(k as int).to_set()),
        decreases count - k,
    {
        let res = handles.key_at(k);
        let h = handles.value_at(k);
        let ghost tk = *tracker;
        let ghost rk = keys[k as int];
        proof {
            assert(!keys.take(k as int).to_set().contains(rk)) by {
                if keys.take(k as int).to_set().contains(rk) {
                    let m = choose|m: int| 0 <= m < k && keys.take(k as int)[m] == rk;
                    assert(keys[m] == keys[k as int]);
                }
            }
            assert(acc[rk] == h.access_type);
        }
        tracker.remove_access(res.as_str(), system.as_str(), &h.access_type);
        proof {
            let done = keys.take(k as int).to_set();
            assert(keys.take(k + 1) =~= keys.take(k as int).push(rk));
            keys.take(k as int).lemma_push_to_set_commute(rk);
            lemma_revoke_step(t0, tk, *tracker, system@, acc, done, rk);
        }
        k = k + 1;
    }
    proof {
        assert(keys.take(k as int) =~= keys);
        assert(keys.to_set() =~= acc.dom());
    }
}

} // verus!
