use tricti::ast::{ResourceAccess, SystemDef, SystemParameter, Type};
use tricti::async_runtime::{
    AsyncExecutionError, AsyncSystemRuntime, ExecutionStepResult, RuntimeConfig, SystemExecutionResult,
    TaskId, TaskPriority, TaskStepOutcome, YieldPoint,
};
use tricti::event_loop_manager::{EventLoopConfig, EventQueue, LoadBalancingStrategy, SystemEvent, TimerManager};
use tricti::names::StrMap;
use tricti::resource_lifecycle::{
    AcquisitionResult, LeaseTimeoutManager, LifecycleEvent, ReleaseReason, ResourceDependencyGraph,
    ResourceLifecycleManager, ResourceLifecyclePolicies,
};
use tricti::error_propagation::{
    transform_error_for_propagation, BackoffStrategy, ErrorContext, ErrorHandlingConfig, ErrorHandlingResult,
    ErrorPropagationManager, RecoveryResult, RecoveryStrategy,
};
use tricti::table_values::ColumnValue;

fn resource_param(name: &str, access: ResourceAccess) -> SystemParameter {
    SystemParameter::Resource {
        param_type: "resource".to_string(),
        name: name.to_string(),
        resource_type: Type::Identifier { name: "World".to_string(), type_args: vec![] },
        access,
    }
}

fn system(name: &str, parameters: Vec<SystemParameter>) -> SystemDef {
    SystemDef { name: name.to_string(), parameters, return_type: None, body: vec![], is_async: true }
}

fn params(names: &[&str]) -> StrMap<ColumnValue> {
    let mut m = StrMap::new();
    for n in names {
        m.insert(n.to_string(), ColumnValue::U64(1));
    }
    m
}

fn success() -> SystemExecutionResult {
    SystemExecutionResult::Success { return_value: None, resources_modified: vec![], tables_modified: vec![] }
}

#[test]
fn submitted_task_runs_to_completion() {
    let mut runtime = AsyncSystemRuntime::new(RuntimeConfig::default());
    let id = TaskId::from_raw(1);
    let future = runtime
        .submit_system(id, system("physics", vec![resource_param("world", ResourceAccess::Mutable)]), params(&["world"]), TaskPriority::High, None, 100)
        .unwrap();
    assert_eq!(future.task_id(), id);
    assert_eq!(future.priority(), TaskPriority::High);
    assert!(!future.is_completed(&runtime));

    // Pending: acquires its resources and starts running.
    assert!(matches!(runtime.tick(110, None), Ok(true)));
    // Running: the execution plan asks to go on.
    assert!(matches!(runtime.tick(120, Some(Ok(ExecutionStepResult::Continue))), Ok(true)));
    // Running: the execution plan completes.
    assert!(matches!(runtime.tick(130, Some(Ok(ExecutionStepResult::Completed(success())))), Ok(true)));
    assert!(future.is_completed(&runtime));
    assert!(matches!(runtime.tick(140, None), Ok(false)));

    let stats = runtime.get_stats();
    assert_eq!(stats.active_tasks, 1);
    assert_eq!(stats.completed_tasks, 1);
    assert_eq!(stats.queued_tasks, 0);
    assert_eq!(stats.total_tasks_created, 2);
}

#[test]
fn missing_parameters_are_reported_in_order() {
    let mut runtime = AsyncSystemRuntime::new(RuntimeConfig::default());
    let def = system("render", vec![resource_param("screen", ResourceAccess::Immutable)]);
    match runtime.submit_system(TaskId::from_raw(5), def, params(&[]), TaskPriority::Normal, Some(10), 0) {
        Err(AsyncExecutionError::SystemError { system, message }) => {
            assert_eq!(system, "render");
            assert_eq!(message, "Missing required resource: screen");
        }
        other => panic!("unexpected {:?}", other.map(|f| f.task_id())),
    }
    assert!(!runtime.has_task(TaskId::from_raw(5)));
}

#[test]
fn steps_report_missing_tasks_plans_and_timeouts() {
    let mut runtime = AsyncSystemRuntime::new(RuntimeConfig::default());
    match runtime.execute_task_step(TaskId::from_raw(9), 0, None) {
        Err(AsyncExecutionError::SystemError { system, message }) => {
            assert_eq!(system, "async_runtime");
            assert_eq!(message, "Task TaskId(9) not found");
        }
        _ => panic!("expected a missing task"),
    }
    let id = TaskId::from_raw(2);
    runtime.submit_system(id, system("ai", vec![]), params(&[]), TaskPriority::Low, Some(50), 1000).unwrap();
    assert!(matches!(runtime.execute_task_step(id, 1000, None), Ok(TaskStepOutcome::NeedsContinuation)));
    match runtime.execute_task_step(id, 1010, None) {
        Err(AsyncExecutionError::SystemError { system, message }) => {
            assert_eq!(system, "ai");
            assert_eq!(message, "No execution plan registered for task TaskId(2)");
        }
        _ => panic!("expected a missing plan"),
    }
    match runtime.execute_task_step(id, 1051, None) {
        Err(AsyncExecutionError::Timeout { system, duration }) => {
            assert_eq!(system, "ai");
            assert_eq!(duration, 50);
        }
        _ => panic!("expected a timeout"),
    }
}

#[test]
fn conflicting_tasks_wait_for_resources() {
    let mut runtime = AsyncSystemRuntime::new(RuntimeConfig::default());
    let writer = TaskId::from_raw(1);
    let reader = TaskId::from_raw(2);
    runtime
        .submit_system(writer, system("writer", vec![resource_param("world", ResourceAccess::Mutable)]), params(&["world"]), TaskPriority::Normal, None, 0)
        .unwrap();
    runtime
        .submit_system(reader, system("reader", vec![resource_param("world", ResourceAccess::Immutable)]), params(&["world"]), TaskPriority::Normal, None, 0)
        .unwrap();
    assert!(matches!(runtime.execute_task_step(writer, 1, None), Ok(TaskStepOutcome::NeedsContinuation)));
    assert!(matches!(
        runtime.execute_task_step(reader, 2, None),
        Err(AsyncExecutionError::SchedulingError(_))
    ));
    // A waiting yield point on the resource cannot resume while the writer holds it.
    let yp = YieldPoint::AwaitingResource { resource_name: "world".to_string(), access_type: ResourceAccess::Immutable };
    assert!(!runtime.can_resume_from_yield_point(&yp, 3));
    assert!(runtime.cancel_task(writer, 4).is_ok());
    assert!(runtime.can_resume_from_yield_point(&yp, 5));
    assert!(runtime.has_completed(writer));
}

#[test]
fn yielded_tasks_resume_after_sleeping() {
    let mut runtime = AsyncSystemRuntime::new(RuntimeConfig::default());
    let id = TaskId::from_raw(3);
    runtime.submit_system(id, system("timer", vec![]), params(&[]), TaskPriority::Normal, Some(100_000), 0).unwrap();
    runtime.execute_task_step(id, 0, None).unwrap();
    let sleep = YieldPoint::Sleeping { duration: 100, started_at: 10 };
    assert!(matches!(
        runtime.execute_task_step(id, 10, Some(Ok(ExecutionStepResult::Yield(sleep)))),
        Ok(TaskStepOutcome::Waiting(Some(_)))
    ));
    assert!(matches!(runtime.execute_task_step(id, 50, None), Ok(TaskStepOutcome::Waiting(Some(_)))));
    assert!(matches!(runtime.execute_task_step(id, 110, None), Ok(TaskStepOutcome::NeedsContinuation)));
    runtime.fail_task(id, AsyncExecutionError::Cancelled { system: "timer".to_string() }, 120);
    assert!(matches!(runtime.execute_task_step(id, 130, None), Ok(TaskStepOutcome::Waiting(None))));
    assert_eq!(runtime.get_stats().failed_tasks, 1);
}

#[test]
fn cancelling_an_unknown_task_fails() {
    let mut runtime = AsyncSystemRuntime::new(RuntimeConfig::default());
    match runtime.cancel_task(TaskId::from_raw(42), 0) {
        Err(AsyncExecutionError::SystemError { system, message }) => {
            assert_eq!(system, "unknown");
            assert_eq!(message, "Task TaskId(42) not found");
        }
        _ => panic!("expected an error"),
    }
}

#[test]
fn event_queue_serves_priority_then_arrival() {
    let mut queue = EventQueue::new(16);
    queue.enqueue(SystemEvent::SystemResume { task_id: TaskId::from_raw(1) }, TaskPriority::Low, 1).unwrap();
    queue.enqueue(SystemEvent::SystemResume { task_id: TaskId::from_raw(2) }, TaskPriority::Critical, 2).unwrap();
    queue.enqueue(SystemEvent::SystemResume { task_id: TaskId::from_raw(3) }, TaskPriority::Critical, 3).unwrap();
    queue.enqueue(SystemEvent::ShutdownRequest, TaskPriority::Normal, 4).unwrap();
    let mut order = Vec::new();
    while let Some(event) = queue.dequeue() {
        match event {
            SystemEvent::SystemResume { task_id } => order.push(task_id.as_u64()),
            SystemEvent::ShutdownRequest => order.push(100),
            _ => panic!("unexpected event"),
        }
    }
    assert_eq!(order, vec![2, 3, 100, 1]);
    assert_eq!(queue.len(), 0);
}

#[test]
fn event_queue_without_capacity_refuses() {
    let mut queue = EventQueue::new(0);
    match queue.enqueue(SystemEvent::ShutdownRequest, TaskPriority::Critical, 0) {
        Err(AsyncExecutionError::SystemError { system, message }) => {
            assert_eq!(system, "event_queue");
            assert_eq!(message, "Event queue capacity exceeded");
        }
        _ => panic!("expected refusal"),
    }
}

#[test]
fn timers_fire_in_time_order_and_can_be_cancelled() {
    let mut timers = TimerManager::new();
    let late = timers.schedule(TaskId::from_raw(1), 500, SystemEvent::ShutdownRequest, 0);
    let early = timers.schedule(TaskId::from_raw(2), 100, SystemEvent::ShutdownRequest, 0);
    let middle = timers.schedule(TaskId::from_raw(3), 300, SystemEvent::ShutdownRequest, 0);
    assert_eq!(late.as_u64(), 0);
    assert_eq!(early.as_u64(), 1);
    timers.cancel(middle);
    assert_eq!(timers.len(), 2);
    let fired = timers.get_fired_timers(200);
    assert_eq!(fired.len(), 1);
    assert_eq!(fired[0].id, early);
    assert_eq!(fired[0].fire_time, 100);
    let fired = timers.get_fired_timers(1000);
    assert_eq!(fired.len(), 1);
    assert_eq!(fired[0].id, late);
    timers.cancel_all();
    assert_eq!(timers.len(), 0);
}

#[test]
fn event_loop_defaults() {
    let config = EventLoopConfig::default();
    assert_eq!(config.max_executor_threads, 4);
    assert_eq!(config.event_queue_capacity, 10000);
    assert_eq!(config.max_execution_time, 30_000);
    assert_eq!(config.load_balancing_strategy, LoadBalancingStrategy::LeastLoaded);
}

#[test]
fn lease_timeouts_expire_in_order() {
    let mut manager = LeaseTimeoutManager::new();
    manager.schedule_timeout_at("b".to_string(), TaskId::from_raw(2), 200);
    manager.schedule_timeout_at("a".to_string(), TaskId::from_raw(1), 100);
    manager.schedule_timeout_at("c".to_string(), TaskId::from_raw(3), 300);
    manager.cancel_timeout("c", TaskId::from_raw(3));
    let expired = manager.get_expired_timeouts_at(250);
    assert_eq!(expired, vec![("a".to_string(), TaskId::from_raw(1)), ("b".to_string(), TaskId::from_raw(2))]);
    assert!(manager.get_expired_timeouts_at(1000).is_empty());
}

#[test]
fn resource_dependency_cycles_are_found() {
    let mut graph = ResourceDependencyGraph::new();
    graph.add_dependency("a".to_string(), "b".to_string());
    graph.add_dependency("b".to_string(), "c".to_string());
    assert!(!graph.has_cycle());
    graph.add_dependency("c".to_string(), "a".to_string());
    assert!(graph.has_cycle());
    graph.remove_dependency("c", "a");
    assert!(!graph.has_cycle());
    assert_eq!(graph.resource_count(), 3);
}

#[test]
fn leases_share_reads_and_make_writers_wait() {
    let mut manager = ResourceLifecycleManager::new(ResourceLifecyclePolicies::default());
    let reader = TaskId::from_raw(1);
    let writer = TaskId::from_raw(2);
    match manager.acquire_resource("map".to_string(), reader, ResourceAccess::Immutable, Some(1000), 100) {
        Ok(AcquisitionResult::Acquired(lease)) => {
            assert_eq!(lease.task_id, reader);
            assert_eq!(lease.lease_duration, 1000);
            assert_eq!(lease.acquired_at, 100);
        }
        _ => panic!("expected a lease"),
    }
    match manager.acquire_resource("map".to_string(), writer, ResourceAccess::Mutable, None, 400) {
        Ok(AcquisitionResult::WaitRequired { estimated_wait_time, blocking_tasks }) => {
            assert_eq!(estimated_wait_time, 700);
            assert_eq!(blocking_tasks, vec![reader]);
        }
        _ => panic!("expected to wait"),
    }
    match manager.release_resource("map".to_string(), writer, ReleaseReason::ExplicitRelease) {
        Err(AsyncExecutionError::ResourceLifecycleError { resource, phase, reason }) => {
            assert_eq!(resource, "map");
            assert_eq!(phase, "release");
            assert_eq!(reason, "Task TaskId(2) does not own resource");
        }
        _ => panic!("expected an ownership error"),
    }
    match manager.release_resource("map".to_string(), reader, ReleaseReason::ExplicitRelease) {
        Err(AsyncExecutionError::ResourceLifecycleError { reason, .. }) => {
            assert_eq!(reason, "Resource not found or already released");
        }
        _ => panic!("the lease went with the refused release"),
    }
}

#[test]
fn releasing_all_leases_of_a_task_and_expiring_leases() {
    let mut manager = ResourceLifecycleManager::new(ResourceLifecyclePolicies::default());
    let a = TaskId::from_raw(1);
    let b = TaskId::from_raw(2);
    manager.acquire_resource("x".to_string(), a, ResourceAccess::Owned, Some(50), 0).unwrap();
    manager.acquire_resource("y".to_string(), b, ResourceAccess::Owned, Some(500), 0).unwrap();
    manager.acquire_resource("z".to_string(), a, ResourceAccess::Owned, Some(50), 0).unwrap();
    let released = manager.release_all_task_resources(a, ReleaseReason::TaskCompleted).unwrap();
    assert_eq!(released, vec!["x".to_string(), "z".to_string()]);
    assert_eq!(manager.get_resource_stats_at(10).active_leases, 1);
    let events = manager.process_expired_leases_at(1000).unwrap();
    assert_eq!(events.len(), 1);
    match &events[0] {
        LifecycleEvent::LeaseExpired { resource_name, task_id } => {
            assert_eq!(resource_name, "y");
            assert_eq!(*task_id, b);
        }
        _ => panic!("expected an expiry"),
    }
    let stats = manager.get_resource_stats_at(1000);
    assert_eq!(stats.active_leases, 0);
    assert_eq!(stats.total_resources, 3);
}

#[test]
fn expiring_a_replaced_lease_stops_at_the_failed_release() {
    let mut manager = ResourceLifecycleManager::new(ResourceLifecyclePolicies::default());
    let first = TaskId::from_raw(1);
    let second = TaskId::from_raw(2);
    manager.acquire_resource("m".to_string(), first, ResourceAccess::Immutable, Some(50), 0).unwrap();
    manager.acquire_resource("m".to_string(), second, ResourceAccess::Immutable, Some(60), 0).unwrap();
    match manager.process_expired_leases_at(1000) {
        Err(AsyncExecutionError::ResourceLifecycleError { resource, phase, reason }) => {
            assert_eq!(resource, "m");
            assert_eq!(phase, "release");
            assert_eq!(reason, "Task TaskId(1) does not own resource");
        }
        _ => panic!("expected the release of the replaced lease to fail"),
    }
}

#[test]
fn error_manager_records_chains_history_and_recovery() {
    let mut config = ErrorHandlingConfig::default();
    config.error_history_size = 2;
    let mut manager = ErrorPropagationManager::new(config);
    let task = TaskId::from_raw(7);
    let context = || ErrorContext {
        task_id: task,
        system_name: "physics".to_string(),
        error_count: 0,
        last_success_time: None,
        available_resources: vec![],
        dependent_tasks: vec![],
    };
    for (i, error) in [
        AsyncExecutionError::Timeout { system: "physics".to_string(), duration: 5 },
        AsyncExecutionError::Timeout { system: "physics".to_string(), duration: 6 },
        AsyncExecutionError::Cancelled { system: "physics".to_string() },
    ]
    .into_iter()
    .enumerate()
    {
        let result = manager.handle_error(task, error, context(), 10 * i as u64, i as u64).unwrap();
        assert!(matches!(result, ErrorHandlingResult::Abort));
    }
    let stats = manager.get_error_stats();
    assert_eq!(stats.total_errors, 2);
    assert_eq!(stats.active_error_chains, 1);
    assert_eq!(stats.average_recovery_time, 0);
    assert!(stats.most_common_error_type == "Timeout" || stats.most_common_error_type == "Cancelled");

    match manager.attempt_recovery(task, "missing").unwrap() {
        RecoveryResult::Failure { reason } => assert_eq!(reason, "Recovery strategy 'missing' not found"),
        _ => panic!("expected failure"),
    }
    manager
        .register_recovery_strategy(
            "retry".to_string(),
            RecoveryStrategy::Retry { max_attempts: 2, backoff_strategy: BackoffStrategy::Fixed(100), conditions: vec![] },
        )
        .unwrap();
    assert!(matches!(manager.attempt_recovery(task, "retry").unwrap(), RecoveryResult::Success));
    manager
        .register_recovery_strategy("restart".to_string(), RecoveryStrategy::Restart { restart_delay: 5, preserve_state: true })
        .unwrap();
    match manager.attempt_recovery(task, "restart").unwrap() {
        RecoveryResult::Failure { reason } => assert_eq!(reason, "Strategy not implemented"),
        _ => panic!("expected failure"),
    }

    match transform_error_for_propagation(
        AsyncExecutionError::SystemError { system: "a".to_string(), message: "boom".to_string() },
        TaskId::from_raw(3),
    ) {
        AsyncExecutionError::SystemError { system, message } => {
            assert_eq!(system, "task_TaskId(3)");
            assert_eq!(message, "Propagated: boom");
        }
        _ => panic!("expected a system error"),
    }
}

#[test]
fn removing_a_new_dependency_restores_the_graph() {
    let mut graph = ResourceDependencyGraph::new();
    graph.add_dependency("a".to_string(), "b".to_string());
    graph.add_dependency("b".to_string(), "a".to_string());
    assert!(graph.has_cycle());
    graph.remove_dependency("b", "a");
    assert!(!graph.has_cycle());
    graph.remove_dependency("b", "a");
    assert!(!graph.has_cycle());
    assert_eq!(graph.resource_count(), 2);
}

#[test]
fn steps_keep_the_reported_yield_point_and_result() {
    let mut runtime = AsyncSystemRuntime::new(RuntimeConfig::default());
    let id = TaskId::from_raw(3);
    runtime.submit_system(id, system("sleeper", vec![]), params(&[]), TaskPriority::Normal, None, 0).unwrap();
    assert!(matches!(runtime.execute_task_step(id, 1, None), Ok(TaskStepOutcome::NeedsContinuation)));
    let nap = YieldPoint::Sleeping { duration: 100, started_at: 1 };
    match runtime.execute_task_step(id, 2, Some(Ok(ExecutionStepResult::Yield(nap)))) {
        Ok(TaskStepOutcome::Waiting(Some(YieldPoint::Sleeping { duration, started_at }))) => {
            assert_eq!(duration, 100);
            assert_eq!(started_at, 1);
        }
        _ => panic!("expected to wait at the reported yield point"),
    }
    match runtime.execute_task_step(id, 50, None) {
        Ok(TaskStepOutcome::Waiting(Some(YieldPoint::Sleeping { duration, .. }))) => assert_eq!(duration, 100),
        _ => panic!("expected the stored yield point"),
    }
    assert!(matches!(runtime.execute_task_step(id, 200, None), Ok(TaskStepOutcome::NeedsContinuation)));
    let done = SystemExecutionResult::Success {
        return_value: Some(ColumnValue::U64(7)),
        resources_modified: vec!["world".to_string()],
        tables_modified: vec![],
    };
    for now in [210, 220] {
        let step = if now == 210 { Some(Ok(ExecutionStepResult::Completed(done.clone()))) } else { None };
        match runtime.execute_task_step(id, now, step) {
            Ok(TaskStepOutcome::Completed(SystemExecutionResult::Success { return_value, resources_modified, .. })) => {
                assert!(matches!(return_value, Some(ColumnValue::U64(7))));
                assert_eq!(resources_modified, vec!["world".to_string()]);
            }
            _ => panic!("expected the reported result"),
        }
    }
}
