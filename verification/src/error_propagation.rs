//! The data of error handling between asynchronous tasks, and the matching of errors against
//! handler patterns. Times are in milliseconds.
use vstd::prelude::*;

use crate::async_runtime::{copy_error, error_copied, task_label, AsyncExecutionError, TaskId};
use crate::names::StrMap;
use crate::system_scheduler::push_decimal;
use crate::text::{chars_of, contains, contains_str};

verus! {

/// Configuration of error handling; durations in milliseconds.
#[derive(Debug, Clone, Copy)]
pub struct ErrorHandlingConfig {
    pub max_retry_attempts: u32,
    pub retry_backoff_base: u64,
    pub max_backoff_duration: u64,
    pub error_history_size: usize,
    pub propagation_timeout: u64,
    pub enable_circuit_breaker: bool,
    pub circuit_breaker_threshold: u32,
}

impl Default for ErrorHandlingConfig {
    fn default() -> (r: ErrorHandlingConfig)
        ensures
            r.max_retry_attempts == 3,
            r.retry_backoff_base == 1000,
            r.max_backoff_duration == 60_000,
            r.error_history_size == 1000,
            r.propagation_timeout == 10_000,
            r.enable_circuit_breaker,
            r.circuit_breaker_threshold == 5,
    {
        ErrorHandlingConfig {
            max_retry_attempts: 3,
            retry_backoff_base: 1000,
            max_backoff_duration: 60_000,
            error_history_size: 1000,
            propagation_timeout: 10_000,
            enable_circuit_breaker: true,
            circuit_breaker_threshold: 5,
        }
    }
}

/// A handler for errors that match its pattern.
#[derive(Debug, Clone)]
pub struct ErrorHandler {
    pub handler_id: String,
    pub error_pattern: ErrorPattern,
    pub priority: u32,
    pub max_retries: Option<u32>,
}

/// Which errors a handler takes.
#[derive(Debug, Clone)]
pub enum ErrorPattern {
    /// Errors of exactly this kind.
    ExactType(String),
    /// Errors whose kind contains this text.
    TypePattern(String),
    /// System errors of this system.
    SourceSystem(String),
    /// Resource conflicts on this resource.
    ResourceName(String),
    /// A named custom pattern; it matches nothing.
    Custom(String),
}

/// The errors of one task, in order.
#[derive(Debug)]
pub struct ErrorChain {
    pub task_id: TaskId,
    pub errors: Vec<ChainedError>,
    pub recovery_attempts: u32,
    pub last_error_time: u64,
    pub propagation_path: Vec<TaskId>,
}

/// One error of a chain.
#[derive(Debug)]
pub struct ChainedError {
    pub error: AsyncExecutionError,
    pub occurred_at: u64,
    pub recovery_attempted: bool,
    pub recovery_result: Option<RecoveryResult>,
    pub propagated_to: Vec<TaskId>,
}

/// A condition under which a retry may happen.
#[derive(Debug, Clone)]
pub enum RetryCondition {
    ErrorType(String),
    ResourceAvailable(String),
    /// A time limit in milliseconds.
    TimeLimit(u64),
    DependencyResolved(TaskId),
}

/// What handling an error decided.
#[derive(Debug, Clone)]
pub enum ErrorHandlingResult {
    Handled,
    /// Retry after a delay in milliseconds.
    Retry { delay: u64 },
    Fallback { new_task_id: TaskId },
    Propagate { target_tasks: Vec<TaskId> },
    Abort,
}

/// The outcome of a recovery attempt.
#[derive(Debug, Clone)]
pub enum RecoveryResult {
    Success,
    PartialSuccess { remaining_issues: Vec<String> },
    Failure { reason: String },
    RequiresManualIntervention,
}

/// An error as recorded in the history.
#[derive(Debug)]
pub struct ErrorEvent {
    pub event_id: String,
    pub task_id: TaskId,
    pub error: AsyncExecutionError,
    pub timestamp: u64,
    pub handling_result: ErrorHandlingResult,
    pub recovery_time: Option<u64>,
}

/// What is known of a task when it fails.
#[derive(Debug, Clone)]
pub struct ErrorContext {
    pub task_id: TaskId,
    pub system_name: String,
    pub error_count: u32,
    pub last_success_time: Option<u64>,
    pub available_resources: Vec<String>,
    pub dependent_tasks: Vec<TaskId>,
}

/// Counts of errors and error chains.
#[derive(Debug, Clone)]
pub struct ErrorStats {
    pub total_errors: usize,
    pub active_error_chains: usize,
    pub average_recovery_time: u64,
    pub most_common_error_type: String,
}

/// The name of the kind of an error.
pub open spec fn error_kind(error: AsyncExecutionError) -> Seq<char> {
    match error {
        AsyncExecutionError::ResourceConflict { .. } => "ResourceConflict"@,
        AsyncExecutionError::SchedulingError(_) => "SchedulingError"@,
        AsyncExecutionError::TableError(_) => "TableError"@,
        AsyncExecutionError::SystemError { .. } => "SystemError"@,
        AsyncExecutionError::Timeout { .. } => "Timeout"@,
        AsyncExecutionError::Cancelled { .. } => "Cancelled"@,
        AsyncExecutionError::ResourceLifecycleError { .. } => "ResourceLifecycleError"@,
    }
}

/// The name of the kind of an error.
pub fn error_type_name(error: &AsyncExecutionError) -> (r: String)
    ensures
        r@ == error_kind(*error),
{
    let name = match error {
        AsyncExecutionError::ResourceConflict { .. } => "ResourceConflict",
        AsyncExecutionError::SchedulingError(_) => "SchedulingError",
        AsyncExecutionError::TableError(_) => "TableError",
        AsyncExecutionError::SystemError { .. } => "SystemError",
        AsyncExecutionError::Timeout { .. } => "Timeout",
        AsyncExecutionError::Cancelled { .. } => "Cancelled",
        AsyncExecutionError::ResourceLifecycleError { .. } => "ResourceLifecycleError",
    };
    proof {
        reveal_strlit("ResourceConflict");
        reveal_strlit("SchedulingError");
        reveal_strlit("TableError");
        reveal_strlit("SystemError");
        reveal_strlit("Timeout");
        reveal_strlit("Cancelled");
        reveal_strlit("ResourceLifecycleError");
    }
    name.to_owned()
}

/// Whether an error matches a handler pattern.
pub open spec fn pattern_matches(pattern: ErrorPattern, error: AsyncExecutionError) -> bool {
    match pattern {
        ErrorPattern::ExactType(kind) => error_kind(error) == kind@,
        ErrorPattern::TypePattern(part) => contains(error_kind(error), part@),
        ErrorPattern::SourceSystem(system) => error matches AsyncExecutionError::SystemError {
            system: s,
            ..
        } && s@ == system@,
        ErrorPattern::ResourceName(resource) => error matches AsyncExecutionError::ResourceConflict {
            resource: r,
            ..
        } && r@ == resource@,
        ErrorPattern::Custom(_) => false,
    }
}

/// Whether an error matches a handler pattern.
pub fn matches_error_pattern(pattern: &ErrorPattern, error: &AsyncExecutionError) -> (r: bool)
    ensures
        r == pattern_matches(*pattern, *error),
{
    match pattern {
        ErrorPattern::ExactType(kind) => {
            let name = error_type_name(error);
            name == *kind
        },
        ErrorPattern::TypePattern(part) => {
            let name = error_type_name(error);
            let chars = chars_of(name.as_str());
            contains_str(&chars, part.as_str())
        },
        ErrorPattern::SourceSystem(system) => match error {
            AsyncExecutionError::SystemError { system: err_system, .. } => *err_system == *system,
            _ => false,
        },
        ErrorPattern::ResourceName(resource) => match error {
            AsyncExecutionError::ResourceConflict { resource: err_resource, .. } => *err_resource
                == *resource,
            _ => false,
        },
        ErrorPattern::Custom(_) => false,
    }
}


/// How long to wait before a retry; durations in milliseconds. An exponential backoff holds
/// its multiplier as the bit pattern of its `f64` value.
#[derive(Debug, Clone, Copy)]
pub enum BackoffStrategy {
    Linear(u64),
    Exponential { base: u64, multiplier_bits: u64 },
    Fixed(u64),
}

/// A way to recover a failed task; durations in milliseconds.
#[derive(Debug, Clone)]
pub enum RecoveryStrategy {
    Retry { max_attempts: u32, backoff_strategy: BackoffStrategy, conditions: Vec<RetryCondition> },
    Fallback { fallback_system: String, fallback_parameters: StrMap<String> },
    Isolate { release_resources: bool, notify_dependents: bool },
    Restart { restart_delay: u64, preserve_state: bool },
    Propagate { target_tasks: Vec<TaskId> },
    CircuitBreaker { failure_threshold: u32, recovery_timeout: u64 },
}

/// The name given to a task in propagated errors: `task_TaskId(n)`.
pub open spec fn propagated_system(target: TaskId) -> Seq<char> {
    "task_"@ + task_label(target)
}

fn task_system_name(target: TaskId) -> (r: String)
    ensures
        r@ == propagated_system(target),
{
    let mut m = String::new();
    m.append("task_");
    m.append("TaskId(");
    push_decimal(&mut m, target.as_u64());
    m.append(")");
    proof {
        assert(m@ =~= propagated_system(target));
    }
    m
}

/// The error to pass on to task `target_task`.
pub fn transform_error_for_propagation(error: AsyncExecutionError, target_task: TaskId) -> (r: AsyncExecutionError)
    ensures
        match error {
            AsyncExecutionError::ResourceConflict { resource, reason, .. } => r matches AsyncExecutionError::ResourceConflict {
                system: s,
                resource: res,
                reason: why,
            } && s@ == propagated_system(target_task) && res == resource && why@ == "Propagated: "@ + reason@,
            AsyncExecutionError::SystemError { message, .. } => r matches AsyncExecutionError::SystemError { system: s, message: m }
                && s@ == propagated_system(target_task) && m@ == "Propagated: "@ + message@,
            _ => r == error,
        },
{
    match error {
        AsyncExecutionError::ResourceConflict { resource, reason, .. } => {
            let mut why = String::new();
            why.append("Propagated: ");
            why.append(reason.as_str());
            AsyncExecutionError::ResourceConflict { system: task_system_name(target_task), resource, reason: why }
        },
        AsyncExecutionError::SystemError { message, .. } => {
            let mut m = String::new();
            m.append("Propagated: ");
            m.append(message.as_str());
            AsyncExecutionError::SystemError { system: task_system_name(target_task), message: m }
        },
        other => other,
    }
}

/// The position of an error's kind among the seven kinds.
pub open spec fn kind_index(e: AsyncExecutionError) -> int {
    match e {
        AsyncExecutionError::ResourceConflict { .. } => 0,
        AsyncExecutionError::SchedulingError(_) => 1,
        AsyncExecutionError::TableError(_) => 2,
        AsyncExecutionError::SystemError { .. } => 3,
        AsyncExecutionError::Timeout { .. } => 4,
        AsyncExecutionError::Cancelled { .. } => 5,
        AsyncExecutionError::ResourceLifecycleError { .. } => 6,
    }
}

/// The name of the kind at position `k`.
pub open spec fn kind_name(k: int) -> Seq<char> {
    if k == 0 {
        "ResourceConflict"@
    } else if k == 1 {
        "SchedulingError"@
    } else if k == 2 {
        "TableError"@
    } else if k == 3 {
        "SystemError"@
    } else if k == 4 {
        "Timeout"@
    } else if k == 5 {
        "Cancelled"@
    } else {
        "ResourceLifecycleError"@
    }
}

/// How many events of the history have an error of kind `k`.
pub open spec fn kind_count(h: Seq<ErrorEvent>, k: int) -> nat
    decreases h.len(),
{
    if h.len() == 0 {
        0
    } else {
        kind_count(h.drop_last(), k) + if kind_index(h.last().error) == k { 1nat } else { 0nat }
    }
}

/// The summed recovery times recorded in the history, and how many events have one.
pub open spec fn recovery_totals(h: Seq<ErrorEvent>) -> (int, nat)
    decreases h.len(),
{
    if h.len() == 0 {
        (0, 0)
    } else {
        let t = recovery_totals(h.drop_last());
        match h.last().recovery_time {
            Some(d) => (t.0 + d, t.1 + 1),
            None => t,
        }
    }
}

proof fn lemma_totals_bounded(h: Seq<ErrorEvent>)
    ensures
        0 <= recovery_totals(h).0 <= recovery_totals(h).1 * 0xFFFF_FFFF_FFFF_FFFF,
        recovery_totals(h).1 <= h.len(),
        forall|k: int| kind_count(h, k) <= h.len(),
    decreases h.len(),
{
    if h.len() > 0 {
        lemma_totals_bounded(h.drop_last());
        assert forall|k: int| kind_count(h, k) <= h.len() by {
            assert(kind_count(h.drop_last(), k) <= h.drop_last().len());
        }
    }
}

/// The chain of task `id` among `cs`, if there is one.
pub open spec fn chain_in(cs: Seq<ErrorChain>, id: TaskId) -> Option<ErrorChain> {
    if exists|i: int| 0 <= i < cs.len() && cs[i].task_id == id {
        Some(cs[choose|i: int| 0 <= i < cs.len() && cs[i].task_id == id])
    } else {
        None
    }
}

/// No two chains of `cs` belong to one task.
pub open spec fn chains_distinct(cs: Seq<ErrorChain>) -> bool {
    forall|i: int, j: int| 0 <= i < j < cs.len() ==> (#[trigger] cs[i]).task_id != (#[trigger] cs[j]).task_id
}

proof fn lemma_chain_in_unique(cs: Seq<ErrorChain>, id: TaskId, i: int)
    requires
        chains_distinct(cs),
        0 <= i < cs.len(),
        cs[i].task_id == id,
    ensures
        chain_in(cs, id) == Some(cs[i]),
{
    let k = choose|k: int| 0 <= k < cs.len() && cs[k].task_id == id;
    if k != i {
        if k < i {
            assert(cs[k].task_id != cs[i].task_id);
        } else {
            assert(cs[i].task_id != cs[k].task_id);
        }
    }
}

/// Replacing the chain at `i` by one of the same task, or adding a chain of another task,
/// leaves the chain of `id` as it was.
proof fn lemma_chain_in_other(before: Seq<ErrorChain>, after: Seq<ErrorChain>, id: TaskId, changed: TaskId)
    requires
        chains_distinct(before),
        chains_distinct(after),
        id != changed,
        before.len() <= after.len(),
        forall|j: int| 0 <= j < before.len() && before[j].task_id != changed ==> after[j] == before[j],
        forall|j: int| 0 <= j < after.len() && (j >= before.len() || before[j].task_id == changed) ==> after[j].task_id == changed,
    ensures
        chain_in(after, id) == chain_in(before, id),
{
    if exists|j: int| 0 <= j < before.len() && before[j].task_id == id {
        let j = choose|j: int| 0 <= j < before.len() && before[j].task_id == id;
        lemma_chain_in_unique(before, id, j);
        assert(after[j] == before[j]);
        lemma_chain_in_unique(after, id, j);
    } else {
        assert(!exists|j: int| 0 <= j < after.len() && after[j].task_id == id) by {
            if exists|j: int| 0 <= j < after.len() && after[j].task_id == id {
                let j = choose|j: int| 0 <= j < after.len() && after[j].task_id == id;
                if j < before.len() && before[j].task_id != changed {
                    assert(before[j].task_id == id);
                }
            }
        }
    }
}

/// Handlers, error chains, recovery strategies and the history of errors.
pub struct ErrorPropagationManager {
    error_handlers: StrMap<Vec<ErrorHandler>>,
    propagation_chains: Vec<ErrorChain>,
    recovery_strategies: StrMap<RecoveryStrategy>,
    error_history: Vec<ErrorEvent>,
    config: ErrorHandlingConfig,
}

impl ErrorPropagationManager {
    /// The handlers registered for each error type.
    pub closed spec fn handlers(&self) -> Map<Seq<char>, Vec<ErrorHandler>> {
        self.error_handlers@
    }

    /// The recovery strategies, by name.
    pub closed spec fn strategies(&self) -> Map<Seq<char>, RecoveryStrategy> {
        self.recovery_strategies@
    }

    /// The recorded errors, oldest first.
    pub closed spec fn history(&self) -> Seq<ErrorEvent> {
        self.error_history@
    }

    /// The error chains, in the order they were started.
    pub closed spec fn chains(&self) -> Seq<ErrorChain> {
        self.propagation_chains@
    }

    /// The configuration.
    pub closed spec fn configuration(&self) -> ErrorHandlingConfig {
        self.config
    }

    /// The chain of task `id`, if it has one.
    pub open spec fn chain_of(&self, id: TaskId) -> Option<ErrorChain> {
        chain_in(self.chains(), id)
    }

    /// No two chains belong to one task, and the maps are well formed.
    pub closed spec fn wf(&self) -> bool {
        &&& self.error_handlers.wf()
        &&& self.recovery_strategies.wf()
        &&& chains_distinct(self.propagation_chains@)
    }

    /// A manager with nothing registered or recorded.
    pub fn new(config: ErrorHandlingConfig) -> (r: ErrorPropagationManager)
        ensures
            r.wf(),
            r.handlers() == Map::<Seq<char>, Vec<ErrorHandler>>::empty(),
            r.strategies() == Map::<Seq<char>, RecoveryStrategy>::empty(),
            r.history() == Seq::<ErrorEvent>::empty(),
            r.chains() == Seq::<ErrorChain>::empty(),
            r.configuration() == config,
    {
        ErrorPropagationManager {
            error_handlers: StrMap::new(),
            propagation_chains: Vec::new(),
            recovery_strategies: StrMap::new(),
            error_history: Vec::new(),
            config,
        }
    }

    /// Adds `handler` to the handlers of `error_type`.
    pub fn register_error_handler(&mut self, error_type: String, handler: ErrorHandler) -> (r: Result<(), AsyncExecutionError>)
        requires
            old(self).wf(),
        ensures
            final(self).wf(),
            r is Ok,
            final(self).handlers().dom() == old(self).handlers().dom().insert(error_type@),
            final(self).handlers()[error_type@]@ == (if old(self).handlers().contains_key(error_type@) {
                old(self).handlers()[error_type@]@
            } else {
                Seq::<ErrorHandler>::empty()
            }).push(handler),
            forall|k: Seq<char>| k != error_type@ && #[trigger] old(self).handlers().contains_key(k)
                ==> final(self).handlers()[k] == old(self).handlers()[k],
            final(self).strategies() == old(self).strategies(),
            final(self).history() == old(self).history(),
            final(self).chains() == old(self).chains(),
    {
        let mut list = match self.error_handlers.remove(error_type.as_str()) {
            Some(l) => l,
            None => Vec::new(),
        };
        let ghost before = list@;
        list.push(handler);
        self.error_handlers.insert(error_type, list);
        assert(self.handlers().dom() =~= old(self).handlers().dom().insert(error_type@));
        Ok(())
    }

    /// Registers `strategy` under `strategy_name`, replacing an earlier one.
    pub fn register_recovery_strategy(&mut self, strategy_name: String, strategy: RecoveryStrategy) -> (r: Result<(), AsyncExecutionError>)
        requires
            old(self).wf(),
        ensures
            final(self).wf(),
            r is Ok,
            final(self).strategies() == old(self).strategies().insert(strategy_name@, strategy),
            final(self).handlers() == old(self).handlers(),
            final(self).history() == old(self).history(),
            final(self).chains() == old(self).chains(),
    {
        self.recovery_strategies.insert(strategy_name, strategy);
        Ok(())
    }

    /// Where the chain of `task_id` is, if it has one.
    fn find_chain(&self, task_id: TaskId) -> (r: Option<usize>)
        requires
            self.wf(),
        ensures
            match r {
                Some(i) => i < self.chains().len() && self.chains()[i as int].task_id == task_id
                    && self.chain_of(task_id) == Some(self.chains()[i as int]),
                None => self.chain_of(task_id) is None,
            },
    {
        let mut i: usize = 0;
        while i < self.propagation_chains.len()
            invariant
                self.wf(),
                i <= self.propagation_chains@.len(),
                forall|j: int| 0 <= j < i ==> self.propagation_chains@[j].task_id != task_id,
            decreases self.propagation_chains@.len() - i,
        {
            if self.propagation_chains[i].task_id == task_id {
                proof {
                    lemma_chain_in_unique(self.propagation_chains@, task_id, i as int);
                }
                return Some(i);
            }
            i = i + 1;
        }
        None
    }

    /// Records an error of `task_id` at time `now`: the history gains an event (dropping its
    /// oldest when it is full), and the task's chain, started if it has none, gains the error.
    /// No registered handler is consulted, so the error is always given up on.
    pub fn handle_error(
        &mut self,
        task_id: TaskId,
        error: AsyncExecutionError,
        context: ErrorContext,
        now: u64,
        event_stamp: u64,
    ) -> (r: Result<ErrorHandlingResult, AsyncExecutionError>)
        requires
            old(self).wf(),
        ensures
            final(self).wf(),
            r matches Ok(ErrorHandlingResult::Abort),
            ({
                let kept = if old(self).history().len() >= old(self).configuration().error_history_size && old(self).history().len() > 0 {
                    old(self).history().drop_first()
                } else {
                    old(self).history()
                };
                let ev = final(self).history().last();
                &&& final(self).history().len() == kept.len() + 1
                &&& final(self).history().drop_last() == kept
                &&& ev.task_id == task_id && ev.timestamp == now && ev.recovery_time is None
                &&& error_copied(error, ev.error)
                &&& ev.handling_result matches ErrorHandlingResult::Handled
                &&& ev.event_id@ == "err_"@ + task_label(task_id) + "_"@ + crate::system_scheduler::decimal(event_stamp as nat)
            }),
            final(self).chain_of(task_id) is Some,
            ({
                let c = final(self).chain_of(task_id)->0;
                &&& c.task_id == task_id
                &&& c.last_error_time == now
                &&& c.errors@.len() > 0 && c.errors@.last().error == error && c.errors@.last().occurred_at == now
                &&& match old(self).chain_of(task_id) {
                    Some(b) => c.errors@.drop_last() == b.errors@ && c.recovery_attempts == b.recovery_attempts
                        && c.propagation_path == b.propagation_path,
                    None => c.errors@.len() == 1 && c.recovery_attempts == 0 && c.propagation_path@.len() == 0,
                }
            }),
            forall|t: TaskId| t != task_id ==> #[trigger] final(self).chain_of(t) == old(self).chain_of(t),
            final(self).handlers() == old(self).handlers(),
            final(self).strategies() == old(self).strategies(),
            final(self).configuration() == old(self).configuration(),
    {
        let mut event_id = String::new();
        event_id.append("err_");
        event_id.append("TaskId(");
        push_decimal(&mut event_id, task_id.as_u64());
        event_id.append(")");
        event_id.append("_");
        push_decimal(&mut event_id, event_stamp);
        proof {
            assert(event_id@ =~= "err_"@ + task_label(task_id) + "_"@ + crate::system_scheduler::decimal(event_stamp as nat));
        }
        let event = ErrorEvent {
            event_id,
            task_id,
            error: copy_error(&error),
            timestamp: now,
            handling_result: ErrorHandlingResult::Handled,
            recovery_time: None,
        };
        if self.error_history.len() >= self.config.error_history_size && self.error_history.len() > 0 {
            self.error_history.remove(0);
        }
        let ghost kept = self.error_history@;
        self.error_history.push(event);
        assert(self.error_history@.drop_last() =~= kept);
        let chained = ChainedError {
            error,
            occurred_at: now,
            recovery_attempted: false,
            recovery_result: None,
            propagated_to: Vec::new(),
        };
        let ghost before = self.propagation_chains@;
        match self.find_chain(task_id) {
            Some(i) => {
                let mut chain = self.propagation_chains.remove(i);
                proof {
                    assert(chain == before[i as int]);
                }
                let ghost old_errors = chain.errors@;
                chain.errors.push(chained);
                chain.last_error_time = now;
                let ghost c = chain;
                self.propagation_chains.insert(i, chain);
                proof {
                    let after = self.propagation_chains@;
                    assert(after =~= before.update(i as int, c));
                    assert(c.errors@.drop_last() =~= old_errors);
                    assert(chains_distinct(after)) by {
                        assert forall|a: int, b: int| 0 <= a < b < after.len() implies
                            (#[trigger] after[a]).task_id != (#[trigger] after[b]).task_id by {
                            assert(after[a].task_id == before[a].task_id);
                            assert(after[b].task_id == before[b].task_id);
                        }
                    }
                    lemma_chain_in_unique(after, task_id, i as int);
                    assert forall|t: TaskId| t != task_id implies #[trigger] self.chain_of(t) == old(self).chain_of(t) by {
                        lemma_chain_in_other(before, after, t, task_id);
                    }
                }
            },
            None => {
                let mut errors: Vec<ChainedError> = Vec::new();
                errors.push(chained);
                let chain = ErrorChain {
                    task_id,
                    errors,
                    recovery_attempts: 0,
                    last_error_time: now,
                    propagation_path: Vec::new(),
                };
                let ghost c = chain;
                self.propagation_chains.push(chain);
                proof {
                    let after = self.propagation_chains@;
                    assert(after =~= before.push(c));
                    assert(!exists|j: int| 0 <= j < before.len() && before[j].task_id == task_id);
                    assert(chains_distinct(after)) by {
                        assert forall|a: int, b: int| 0 <= a < b < after.len() implies
                            (#[trigger] after[a]).task_id != (#[trigger] after[b]).task_id by {
                            assert(after[a] == before[a]);
                            if b < before.len() {
                                assert(after[b] == before[b]);
                            }
                        }
                    }
                    lemma_chain_in_unique(after, task_id, before.len() as int);
                    assert forall|t: TaskId| t != task_id implies #[trigger] self.chain_of(t) == old(self).chain_of(t) by {
                        lemma_chain_in_other(before, after, t, task_id);
                    }
                }
            },
        }
        Ok(ErrorHandlingResult::Abort)
    }

    /// Tries the recovery strategy named `strategy_name` for `task_id`. An unknown name fails;
    /// only a retry is carried out, and it fails once the task's chain has used up the
    /// strategy's attempts; every other strategy fails as not implemented.
    pub fn attempt_recovery(&self, task_id: TaskId, strategy_name: &str) -> (r: Result<RecoveryResult, AsyncExecutionError>)
        requires
            self.wf(),
        ensures
            !self.strategies().contains_key(strategy_name@) ==> (r matches Ok(RecoveryResult::Failure { reason })
                && reason@ == "Recovery strategy '"@ + strategy_name@ + "' not found"@),
            self.strategies().contains_key(strategy_name@) ==> match self.strategies()[strategy_name@] {
                RecoveryStrategy::Retry { max_attempts, .. } => {
                    let used = match self.chain_of(task_id) {
                        Some(c) => c.recovery_attempts,
                        None => 0,
                    };
                    if used >= max_attempts {
                        r matches Ok(RecoveryResult::Failure { reason }) && reason@ == "Maximum retry attempts exceeded"@
                    } else {
                        r matches Ok(RecoveryResult::Success)
                    }
                },
                _ => r matches Ok(RecoveryResult::Failure { reason }) && reason@ == "Strategy not implemented"@,
            },
    {
        let max_attempts = match self.recovery_strategies.get(strategy_name) {
            Some(RecoveryStrategy::Retry { max_attempts, .. }) => *max_attempts,
            Some(_) => {
                return Ok(RecoveryResult::Failure { reason: "Strategy not implemented".to_string() });
            },
            None => {
                let mut reason = String::new();
                reason.append("Recovery strategy '");
                reason.append(strategy_name);
                reason.append("' not found");
                return Ok(RecoveryResult::Failure { reason });
            },
        };
        let used = match self.find_chain(task_id) {
            Some(i) => self.propagation_chains[i].recovery_attempts,
            None => 0,
        };
        if used >= max_attempts {
            return Ok(RecoveryResult::Failure { reason: "Maximum retry attempts exceeded".to_string() });
        }
        Ok(RecoveryResult::Success)
    }

    /// Counts of the history and the chains, the mean recovery time of the events that have one
    /// (zero when none has), and the most frequent kind of error in the history ("None" when
    /// it is empty).
    pub fn get_error_stats(&self) -> (r: ErrorStats)
        requires
            self.wf(),
        ensures
            r.total_errors == self.history().len(),
            r.active_error_chains == self.chains().len(),
            r.average_recovery_time == if recovery_totals(self.history()).1 == 0 {
                0
            } else {
                recovery_totals(self.history()).0 / (recovery_totals(self.history()).1 as int)
            },
            self.history().len() == 0 ==> r.most_common_error_type@ == "None"@,
            self.history().len() > 0 ==> exists|k: int| 0 <= k < 7 && r.most_common_error_type@ == kind_name(k)
                && forall|j: int| 0 <= j < 7 ==> #[trigger] kind_count(self.history(), j) <= kind_count(self.history(), k),
    {
        let h = &self.error_history;
        let mut counts: Vec<usize> = vec![0, 0, 0, 0, 0, 0, 0];
        let mut total: u128 = 0;
        let mut timed: usize = 0;
        let mut i: usize = 0;
        proof {
            assert(h@.take(0) =~= Seq::<ErrorEvent>::empty());
        }
        while i < h.len()
            invariant
                *h == self.error_history,
                i <= h@.len(),
                counts@.len() == 7,
                forall|k: int| 0 <= k < 7 ==> counts@[k] == #[trigger] kind_count(h@.take(i as int), k),
                total == recovery_totals(h@.take(i as int)).0,
                timed == recovery_totals(h@.take(i as int)).1,
            decreases h@.len() - i,
        {
            let ghost t = h@.take(i + 1);
            proof {
                assert(t.drop_last() =~= h@.take(i as int));
                assert(t.last() == h@[i as int]);
                lemma_totals_bounded(t);
                lemma_totals_bounded(h@.take(i as int));
            }
            let k: usize = match h[i].error {
                AsyncExecutionError::ResourceConflict { .. } => 0,
                AsyncExecutionError::SchedulingError(_) => 1,
                AsyncExecutionError::TableError(_) => 2,
                AsyncExecutionError::SystemError { .. } => 3,
                AsyncExecutionError::Timeout { .. } => 4,
                AsyncExecutionError::Cancelled { .. } => 5,
                AsyncExecutionError::ResourceLifecycleError { .. } => 6,
            };
            proof {
                assert(k == kind_index(h@[i as int].error));
                assert(kind_count(h@.take(i as int), k as int) <= i);
            }
            let c = counts[k];
            let ghost cb = counts@;
            counts.set(k, c + 1);
            proof {
                assert forall|j: int| 0 <= j < 7 implies counts@[j] == #[trigger] kind_count(t, j) by {
                    assert(kind_count(t, j) == kind_count(h@.take(i as int), j) + if kind_index(t.last().error) == j { 1nat } else { 0nat });
                    if j != k as int {
                        assert(counts@[j] == cb[j]);
                    }
                }
            }
            match h[i].recovery_time {
                Some(d) => {
                    total = total + d as u128;
                    timed = timed + 1;
                },
                None => {},
            }
            i = i + 1;
        }
        proof {
            assert(h@.take(i as int) =~= h@);
            lemma_totals_bounded(h@);
        }
        let average: u64 = if timed == 0 {
            0
        } else {
            let c = timed as u128;
            assert(total / c <= 0xFFFF_FFFF_FFFF_FFFFu128) by (nonlinear_arith)
                requires
                    total <= c * 0xFFFF_FFFF_FFFF_FFFFu128,
                    c > 0,
            ;
            (total / c) as u64
        };
        let most_common = if h.len() == 0 {
            "None".to_string()
        } else {
            let mut best: usize = 0;
            let mut k: usize = 1;
            while k < 7
                invariant
                    counts@.len() == 7,
                    1 <= k <= 7,
                    best < 7,
                    forall|j: int| 0 <= j < k ==> counts@[j] <= counts@[best as int],
                decreases 7 - k,
            {
                if counts[k] > counts[best] {
                    best = k;
                }
                k = k + 1;
            }
            let name = if best == 0 {
                "ResourceConflict"
            } else if best == 1 {
                "SchedulingError"
            } else if best == 2 {
                "TableError"
            } else if best == 3 {
                "SystemError"
            } else if best == 4 {
                "Timeout"
            } else if best == 5 {
                "Cancelled"
            } else {
                "ResourceLifecycleError"
            };
            proof {
                assert(name@ == kind_name(best as int));
                assert(forall|j: int| 0 <= j < 7 ==> #[trigger] kind_count(self.history(), j) <= kind_count(self.history(), best as int));
            }
            name.to_string()
        };
        ErrorStats {
            total_errors: h.len(),
            active_error_chains: self.propagation_chains.len(),
            average_recovery_time: average,
            most_common_error_type: most_common,
        }
    }
}

} // verus!
