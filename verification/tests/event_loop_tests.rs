use tricti::async_runtime::{AsyncExecutionError, TaskId, YieldPoint};
use tricti::event_loop_manager::{EventLoopConfig, EventLoopManager, SystemEvent};

fn manager() -> EventLoopManager {
    EventLoopManager::new(EventLoopConfig::default(), 5)
}

#[test]
fn loop_starts_once() {
    let mut m = manager();
    assert!(!m.get_stats().is_running);
    assert!(m.start().is_ok());
    assert!(m.get_stats().is_running);
    match m.start() {
        Err(AsyncExecutionError::SystemError { system, message }) => {
            assert_eq!(system, "event_loop");
            assert_eq!(message, "Event loop is already running");
        }
        other => panic!("unexpected {:?}", other),
    }
    m.finish();
    assert!(!m.get_stats().is_running);
}

#[test]
fn stop_queues_a_shutdown_request_first() {
    let mut m = manager();
    assert!(m.process_event(SystemEvent::SystemStart {
        task_id: TaskId::from_raw(1),
        system_def: tricti::ast::SystemDef { name: "s".to_string(), parameters: vec![], return_type: None, body: vec![], is_async: false },
        parameters: tricti::names::StrMap::new(),
        priority: tricti::async_runtime::TaskPriority::Normal,
    }, 6).is_ok());
    assert!(m.stop(10).is_ok());
    assert!(m.is_stopping());
    assert_eq!(m.get_stats().pending_events, 1);
    assert!(matches!(m.dequeue_event(), Some(SystemEvent::ShutdownRequest)));
    assert_eq!(m.get_stats().pending_events, 0);
    assert_eq!(m.get_stats().total_processed_events, 1);
    assert!(m.dequeue_event().is_none());
}

#[test]
fn sleeping_task_is_resumed_by_a_timer() {
    let mut m = manager();
    let task = TaskId::from_raw(4);
    let sleep = SystemEvent::SystemYield { task_id: task, yield_point: YieldPoint::Sleeping { duration: 50, started_at: 100 } };
    assert!(m.process_event(sleep, 100).is_ok());
    assert_eq!(m.get_stats().scheduled_timers, 1);
    // Not due yet.
    assert!(m.process_timer_events(149).is_ok());
    assert!(m.dequeue_event().is_none());
    // Due: the resume is queued.
    assert!(m.process_timer_events(150).is_ok());
    assert_eq!(m.get_stats().pending_events, 1);
    assert_eq!(m.get_stats().last_activity, 150);
    match m.dequeue_event() {
        Some(SystemEvent::SystemResume { task_id }) => assert_eq!(task_id, task),
        other => panic!("unexpected {:?}", other),
    }
}

#[test]
fn available_resource_resumes_waiting_tasks_in_order() {
    let mut m = manager();
    let event = SystemEvent::ResourceAvailable {
        resource_name: "world".to_string(),
        available_for: vec![TaskId::from_raw(2), TaskId::from_raw(3)],
    };
    assert!(m.process_event(event, 20).is_ok());
    assert_eq!(m.get_stats().pending_events, 2);
    let first = m.dequeue_event();
    let second = m.dequeue_event();
    assert!(matches!(first, Some(SystemEvent::SystemResume { task_id }) if task_id == TaskId::from_raw(2)));
    assert!(matches!(second, Some(SystemEvent::SystemResume { task_id }) if task_id == TaskId::from_raw(3)));
}

#[test]
fn completions_never_make_active_systems_negative() {
    let mut m = manager();
    let done = SystemEvent::SystemComplete { task_id: TaskId::from_raw(9), result: Err(AsyncExecutionError::TableError("x".to_string())) };
    assert!(m.process_event(done, 1).is_ok());
    assert_eq!(m.get_stats().active_systems, 0);
    let cancel = SystemEvent::SystemCancellation { task_id: TaskId::from_raw(9), reason: "r".to_string() };
    assert!(m.process_event(cancel, 2).is_ok());
    assert_eq!(m.get_stats().active_systems, 0);
}

#[test]
fn cancelled_timers_are_uncounted_but_never_below_zero() {
    let mut m = manager();
    let id = m.schedule_timer(TaskId::from_raw(1), 10, SystemEvent::SystemResume { task_id: TaskId::from_raw(1) }, 0).unwrap();
    assert_eq!(id.as_u64(), 0);
    assert_eq!(m.get_stats().scheduled_timers, 1);
    assert!(m.cancel_timer(id).is_ok());
    assert_eq!(m.get_stats().scheduled_timers, 0);
    assert!(m.cancel_timer(id).is_ok());
    assert_eq!(m.get_stats().scheduled_timers, 0);
    assert!(m.process_timer_events(100).is_ok());
    assert!(m.dequeue_event().is_none());
}

#[test]
fn latency_is_a_running_mean() {
    let mut q = manager();
    assert!(q.process_event(SystemEvent::ResourceAvailable { resource_name: "r".to_string(), available_for: vec![TaskId::from_raw(1), TaskId::from_raw(2)] }, 0).is_ok());
    assert!(q.dequeue_event().is_some());
    q.record_latency(10);
    assert_eq!(q.get_stats().average_latency, 10);
    assert!(q.dequeue_event().is_some());
    q.record_latency(21);
    assert_eq!(q.get_stats().average_latency, 15);
}

#[test]
fn cleanup_drops_events_and_timers() {
    let mut m = manager();
    let _ = m.schedule_timer(TaskId::from_raw(1), 10, SystemEvent::ShutdownRequest, 0).unwrap();
    assert!(m.stop(1).is_ok());
    assert!(m.shutdown_cleanup().is_ok());
    assert!(m.dequeue_event().is_none());
    assert!(m.process_timer_events(1000).is_ok());
    assert!(m.dequeue_event().is_none());
}
