use tricti::ast::{ResourceAccess, SystemDef, SystemParameter, Type};
use tricti::async_runtime::{
    AsyncExecutionError, AsyncSystemRuntime, CompletedTaskInfo, ExecutionStepResult, RuntimeConfig,
    SystemExecutionResult, SystemFuture, TaskId, TaskPriority,
};
use tricti::async_scheduler_integration::{
    record_task_completion, wait_for_batch_completion, ConstraintType, DependencyGraph, SchedulingStats,
};
use tricti::names::StrMap;
use tricti::table_values::ColumnValue;

fn resource_param(name: &str, access: ResourceAccess) -> SystemParameter {
    SystemParameter::Resource {
        param_type: "resource".to_string(),
        name: name.to_string(),
        resource_type: Type::Identifier { name: "World".to_string(), type_args: vec![] },
        access,
    }
}

fn system(name: &str, parameters: Vec<SystemParameter>) -> SystemDef {
    SystemDef { name: name.to_string(), parameters, return_type: None, body: vec![], is_async: true }
}

fn params(names: &[&str]) -> StrMap<ColumnValue> {
    let mut m = StrMap::new();
    for n in names {
        m.insert(n.to_string(), ColumnValue::U64(1));
    }
    m
}

fn success() -> SystemExecutionResult {
    SystemExecutionResult::Success { return_value: None, resources_modified: vec![], tables_modified: vec![] }
}

fn ids(v: &[TaskId]) -> Vec<u64> {
    v.iter().map(|t| t.as_u64()).collect()
}

#[test]
fn drained_results_carry_their_tasks() {
    let mut runtime = AsyncSystemRuntime::new(RuntimeConfig::default());
    let first = TaskId::from_raw(1);
    let second = TaskId::from_raw(2);
    runtime
        .submit_system(first, system("physics", vec![resource_param("world", ResourceAccess::Mutable)]), params(&["world"]), TaskPriority::High, None, 0)
        .unwrap();
    assert!(runtime.drain_completed_tasks().is_empty());

    assert!(matches!(runtime.tick(10, None), Ok(true)));
    assert!(matches!(runtime.tick(20, Some(Ok(ExecutionStepResult::Completed(success())))), Ok(true)));
    runtime.submit_system(second, system("audio", vec![]), params(&[]), TaskPriority::Low, None, 25).unwrap();
    assert!(runtime.cancel_task(second, 30).is_ok());

    let drained = runtime.drain_completed_tasks();
    assert_eq!(drained.len(), 2);
    assert_eq!(drained[0].task_id, first);
    assert_eq!(drained[0].priority, TaskPriority::High);
    assert_eq!(drained[0].system_def.as_ref().map(|d| d.name.as_str()), Some("physics"));
    assert!(drained[0].parameters.is_some());
    assert!(drained[0].result.is_ok());
    assert_eq!(drained[1].task_id, second);
    assert_eq!(drained[1].system_def.as_ref().map(|d| d.name.as_str()), Some("audio"));
    assert!(matches!(drained[1].result, Err(AsyncExecutionError::Cancelled { .. })));

    assert!(!runtime.has_task(first));
    assert!(!runtime.has_task(second));
    assert!(!runtime.has_completed(first));
    assert!(runtime.drain_completed_tasks().is_empty());
    let stats = runtime.get_stats();
    assert_eq!(stats.active_tasks, 0);
    assert_eq!(stats.completed_tasks, 0);
}

#[test]
fn graph_orders_tasks_of_a_system_and_tracks_resource_use() {
    let mut graph = DependencyGraph::new();
    let reader = system("render", vec![resource_param("world", ResourceAccess::Immutable)]);
    let writer = system("physics", vec![resource_param("world", ResourceAccess::Mutable)]);

    graph.update_dependency_graph(TaskId::from_raw(1), &reader);
    graph.update_dependency_graph(TaskId::from_raw(2), &writer);
    graph.update_dependency_graph(TaskId::from_raw(3), &reader);

    assert_eq!(ids(graph.tasks_of("render").unwrap()), vec![1, 3]);
    assert_eq!(ids(graph.tasks_of("physics").unwrap()), vec![2]);
    let constraints = graph.ordering_constraints();
    assert_eq!(constraints.len(), 1);
    assert_eq!(constraints[0].before_task, TaskId::from_raw(1));
    assert_eq!(constraints[0].after_task, TaskId::from_raw(3));
    assert!(matches!(constraints[0].constraint_type, ConstraintType::CausalDependency));

    // The first reader holds the world; the writer waits; the next reader joins the readers.
    let usage = graph.usage_of("world").unwrap();
    assert_eq!(ids(&usage.current_readers), vec![1, 3]);
    assert!(usage.current_writer.is_none());
    assert_eq!(usage.pending_writers.iter().map(|t| t.as_u64()).collect::<Vec<_>>(), vec![2]);
    assert!(usage.pending_readers.is_empty());
    assert_eq!(
        usage.access_history,
        vec![ResourceAccess::Immutable, ResourceAccess::Mutable, ResourceAccess::Immutable]
    );
    assert!(graph.is_tracked(TaskId::from_raw(2)));
}

#[test]
fn a_writer_on_a_free_resource_holds_it() {
    let mut graph = DependencyGraph::new();
    graph.update_dependency_graph(TaskId::from_raw(7), &system("physics", vec![resource_param("world", ResourceAccess::Owned)]));
    graph.update_dependency_graph(TaskId::from_raw(8), &system("render", vec![resource_param("world", ResourceAccess::Immutable)]));
    let usage = graph.usage_of("world").unwrap();
    assert_eq!(usage.current_writer, Some(TaskId::from_raw(7)));
    assert!(usage.current_readers.is_empty());
    assert_eq!(usage.pending_readers.iter().map(|t| t.as_u64()).collect::<Vec<_>>(), vec![8]);
}

fn completion(id: u64, name: Option<&str>, ok: bool) -> CompletedTaskInfo {
    CompletedTaskInfo {
        task_id: TaskId::from_raw(id),
        system_def: name.map(|n| system(n, vec![])),
        parameters: None,
        priority: TaskPriority::Normal,
        result: if ok { Ok(success()) } else { Err(AsyncExecutionError::TableError("failed".to_string())) },
    }
}

#[test]
fn completions_are_counted_and_leave_the_graph() {
    let mut graph = DependencyGraph::new();
    let mut stats = SchedulingStats::default();
    graph.update_dependency_graph(TaskId::from_raw(1), &system("render", vec![]));
    graph.update_dependency_graph(TaskId::from_raw(2), &system("render", vec![]));

    record_task_completion(&mut stats, &mut graph, &completion(1, Some("render"), true));
    assert_eq!(stats.successful_executions, 1);
    assert_eq!(stats.failed_executions, 0);
    assert!(!graph.is_tracked(TaskId::from_raw(1)));
    assert!(graph.is_tracked(TaskId::from_raw(2)));
    assert_eq!(ids(graph.tasks_of("render").unwrap()), vec![2]);

    record_task_completion(&mut stats, &mut graph, &completion(2, Some("render"), false));
    assert_eq!(stats.failed_executions, 1);
    assert!(graph.tasks_of("render").is_none());

    // A report without its system only stops tracking the task.
    graph.update_dependency_graph(TaskId::from_raw(3), &system("audio", vec![]));
    record_task_completion(&mut stats, &mut graph, &completion(3, None, true));
    assert!(!graph.is_tracked(TaskId::from_raw(3)));
    assert_eq!(ids(graph.tasks_of("audio").unwrap()), vec![3]);
    assert_eq!(stats.successful_executions, 2);
}

#[test]
fn batches_raise_the_concurrency_high_water_mark() {
    let mut stats = SchedulingStats::default();
    let futures: Vec<SystemFuture> =
        (0..3).map(|i| SystemFuture::new(TaskId::from_raw(i), TaskPriority::Normal)).collect();
    wait_for_batch_completion(&mut stats, &futures);
    assert_eq!(stats.concurrent_executions, 3);
    wait_for_batch_completion(&mut stats, &futures[..1].to_vec());
    assert_eq!(stats.concurrent_executions, 3);
    wait_for_batch_completion(&mut stats, &Vec::new());
    assert_eq!(stats.concurrent_executions, 3);
}
