use tricti::ast::{ResourceAccess, SystemDef, SystemParameter, Type};
use tricti::scheduler::{SchedulerError, SchedulingStrategy};
use tricti::system_scheduler::SystemScheduler;

/// A scheduler as `SystemScheduler::new` makes it on a machine with four processors.
fn scheduler() -> SystemScheduler {
    SystemScheduler::with_config(SchedulingStrategy::FCFS, 4)
}

fn create_test_system(name: &str, resources: Vec<(&str, ResourceAccess)>) -> SystemDef {
    let parameters = resources
        .into_iter()
        .map(|(res_name, access)| SystemParameter::Resource {
            param_type: "resource".to_string(),
            name: res_name.to_string(),
            resource_type: Type::Identifier {
                name: "TestResource".to_string(),
                type_args: vec![],
            },
            access,
        })
        .collect();
    SystemDef {
        name: name.to_string(),
        parameters,
        return_type: None,
        body: vec![],
        is_async: false,
    }
}

#[test]
fn test_scheduler_add_system() {
    let mut scheduler = scheduler();
    let system = create_test_system("test_system", vec![("resource1", ResourceAccess::Immutable)]);

    assert!(scheduler.add_system(system).is_ok());
    assert!(scheduler.systems.contains_key("test_system"));
    assert!(scheduler.conflict_graph.systems.contains("test_system"));
}

#[test]
fn test_scheduler_conflict_detection() {
    let mut scheduler = scheduler();
    let system1 = create_test_system("system1", vec![("resource1", ResourceAccess::Immutable)]);
    let system2 = create_test_system("system2", vec![("resource1", ResourceAccess::Mutable)]);

    assert!(scheduler.add_system(system1).is_ok());
    assert!(scheduler.add_system(system2).is_ok());
    assert!(scheduler.build_conflict_graph().is_ok());
    assert!(scheduler.conflict_graph.has_conflict("system1", "system2"));
}

#[test]
fn test_scheduler_no_conflict_read_read() {
    let mut scheduler = scheduler();
    let system1 = create_test_system("system1", vec![("resource1", ResourceAccess::Immutable)]);
    let system2 = create_test_system("system2", vec![("resource1", ResourceAccess::Immutable)]);

    assert!(scheduler.add_system(system1).is_ok());
    assert!(scheduler.add_system(system2).is_ok());
    assert!(scheduler.build_conflict_graph().is_ok());
    assert!(!scheduler.conflict_graph.has_conflict("system1", "system2"));
}

#[test]
fn test_scheduler_system_validation() {
    let mut scheduler = scheduler();
    let mut system = create_test_system("test_system", vec![]);
    system.parameters.push(SystemParameter::Resource {
        param_type: "resource".to_string(),
        name: "resource1".to_string(),
        resource_type: Type::Identifier { name: "TestResource".to_string(), type_args: vec![] },
        access: ResourceAccess::Immutable,
    });
    system.parameters.push(SystemParameter::Resource {
        param_type: "resource".to_string(),
        name: "resource1".to_string(),
        resource_type: Type::Identifier { name: "TestResource".to_string(), type_args: vec![] },
        access: ResourceAccess::Mutable,
    });

    let result = scheduler.add_system(system);
    assert!(result.is_err());
    match result.unwrap_err() {
        SchedulerError::InvalidResourceAccess { system, resource, reason } => {
            assert_eq!(system, "test_system");
            assert_eq!(resource, "resource1");
            assert!(reason.contains("conflicting access patterns"));
        }
        _ => panic!("Expected InvalidResourceAccess error"),
    }
}

#[test]
fn test_scheduler_conflicting_resource_types() {
    let mut scheduler = scheduler();
    let mut system = create_test_system("type_conflict", vec![]);
    system.parameters.push(SystemParameter::Resource {
        param_type: "resource".to_string(),
        name: "resource1".to_string(),
        resource_type: Type::Identifier { name: "TestResource".to_string(), type_args: vec![] },
        access: ResourceAccess::Immutable,
    });
    system.parameters.push(SystemParameter::Resource {
        param_type: "resource".to_string(),
        name: "resource1".to_string(),
        resource_type: Type::Identifier { name: "OtherResource".to_string(), type_args: vec![] },
        access: ResourceAccess::Immutable,
    });

    let result = scheduler.add_system(system);
    assert!(result.is_err());
    match result.unwrap_err() {
        SchedulerError::InvalidResourceAccess { system, resource, reason } => {
            assert_eq!(system, "type_conflict");
            assert_eq!(resource, "resource1");
            assert!(reason.contains("conflicting types"));
        }
        _ => panic!("Expected InvalidResourceAccess error"),
    }
}

fn two_systems_sharing(scheduler: &mut SystemScheduler, first: ResourceAccess, second: ResourceAccess) {
    scheduler.add_system(create_test_system("s1", vec![("r", first)])).unwrap();
    scheduler.add_system(create_test_system("s2", vec![("r", second)])).unwrap();
    scheduler.build_conflict_graph().unwrap();
    scheduler.enqueue_system("s1".to_string());
    scheduler.enqueue_system("s2".to_string());
}

#[test]
fn batch_skips_conflicting_systems_until_completion() {
    let mut scheduler = scheduler();
    two_systems_sharing(&mut scheduler, ResourceAccess::Mutable, ResourceAccess::Immutable);

    assert_eq!(scheduler.get_schedulable_systems(), vec!["s1".to_string(), "s2".to_string()]);
    let first = scheduler.schedule_batch().unwrap();
    assert_eq!(first, vec!["s1".to_string()]);
    assert!(!scheduler.can_schedule_system("s2"));
    assert!(scheduler.complete_system("s1").is_ok());
    let second = scheduler.schedule_batch().unwrap();
    assert_eq!(second, vec!["s2".to_string()]);
    assert!(scheduler.complete_system("s2").is_ok());
    assert!(scheduler.is_complete());
}

#[test]
fn batch_runs_readers_together() {
    let mut scheduler = scheduler();
    two_systems_sharing(&mut scheduler, ResourceAccess::Immutable, ResourceAccess::Immutable);
    let started = scheduler.schedule_batch().unwrap();
    assert_eq!(started, vec!["s1".to_string(), "s2".to_string()]);
    let stats = scheduler.get_scheduling_stats();
    assert_eq!(stats.executing_systems, 2);
    assert_eq!(stats.pending_systems, 0);
    assert_eq!(stats.total_systems, 2);
}

#[test]
fn batch_respects_concurrency_limit() {
    let mut scheduler = SystemScheduler::with_config(SchedulingStrategy::FCFS, 1);
    scheduler.add_system(create_test_system("a", vec![])).unwrap();
    scheduler.add_system(create_test_system("b", vec![])).unwrap();
    scheduler.enqueue_system("a".to_string());
    scheduler.enqueue_system("b".to_string());
    assert_eq!(scheduler.schedule_batch().unwrap(), vec!["a".to_string()]);
    assert_eq!(scheduler.schedule_batch().unwrap(), Vec::<String>::new());
    assert!(scheduler.get_schedulable_systems().is_empty());
}

#[test]
fn scheduling_a_blocked_system_fails_with_reason() {
    let mut scheduler = scheduler();
    two_systems_sharing(&mut scheduler, ResourceAccess::Mutable, ResourceAccess::Mutable);
    assert!(scheduler.schedule_system("s1").is_ok());
    match scheduler.schedule_system("s2") {
        Err(SchedulerError::SchedulingFailure { reason }) => {
            assert_eq!(reason, "System 's2' cannot be scheduled due to conflicts");
        }
        other => panic!("unexpected {:?}", other),
    }
    match scheduler.complete_system("s2") {
        Err(SchedulerError::SchedulingFailure { reason }) => {
            assert_eq!(reason, "System 's2' is not currently executing");
        }
        other => panic!("unexpected {:?}", other),
    }
}

#[test]
fn dependencies_wait_for_completion_and_refuse_cycles() {
    let mut scheduler = scheduler();
    scheduler.add_system(create_test_system("base", vec![])).unwrap();
    scheduler
        .add_system_with_metadata(
            create_test_system("later", vec![]),
            tricti::scheduler::SystemPriority::High,
            Some(500),
            vec!["base".to_string()],
        )
        .unwrap();
    scheduler.enqueue_system("base".to_string());
    scheduler.enqueue_system("later".to_string());
    assert!(!scheduler.can_schedule_system("later"));
    assert!(scheduler.would_create_cycle("base", "later"));
    match scheduler.add_dependency("base", "later") {
        Err(SchedulerError::DeadlockDetected { cycle }) => {
            assert_eq!(cycle, vec!["base".to_string(), "later".to_string()]);
        }
        other => panic!("unexpected {:?}", other),
    }
    assert_eq!(scheduler.schedule_batch().unwrap(), vec!["base".to_string()]);
    scheduler.complete_system("base").unwrap();
    assert!(scheduler.can_schedule_system("later"));
}

#[test]
fn completion_estimate_spreads_over_concurrency() {
    let mut scheduler = SystemScheduler::with_config(SchedulingStrategy::SJF, 2);
    scheduler
        .add_system_with_metadata(create_test_system("slow", vec![]), tricti::scheduler::SystemPriority::Normal, Some(3000), vec![])
        .unwrap();
    scheduler.add_system(create_test_system("unknown", vec![])).unwrap();
    scheduler.enqueue_system("slow".to_string());
    scheduler.enqueue_system("unknown".to_string());
    assert_eq!(scheduler.estimate_completion_time(), Some(2000));
    assert_eq!(scheduler.get_schedulable_systems(), vec!["slow".to_string(), "unknown".to_string()]);
}

#[test]
fn priority_strategy_orders_by_priority() {
    let mut scheduler = SystemScheduler::with_config(SchedulingStrategy::Priority, 4);
    scheduler.set_system_priority("urgent", tricti::scheduler::SystemPriority::Critical);
    scheduler.add_system(create_test_system("plain", vec![])).unwrap();
    scheduler.add_system(create_test_system("urgent", vec![])).unwrap();
    scheduler.enqueue_system("plain".to_string());
    scheduler.enqueue_system("urgent".to_string());
    assert_eq!(scheduler.get_schedulable_systems(), vec!["urgent".to_string(), "plain".to_string()]);
}

#[test]
fn conflicts_are_reported_as_deadlock_cycles() {
    let mut scheduler = scheduler();
    two_systems_sharing(&mut scheduler, ResourceAccess::Mutable, ResourceAccess::Immutable);
    match scheduler.detect_deadlocks() {
        Err(SchedulerError::DeadlockDetected { cycle }) => assert!(cycle.len() >= 2),
        other => panic!("unexpected {:?}", other),
    }
    let mut quiet = SystemScheduler::with_config(SchedulingStrategy::FCFS, 4);
    quiet.add_system(create_test_system("alone", vec![("r", ResourceAccess::Owned)])).unwrap();
    quiet.build_conflict_graph().unwrap();
    assert!(quiet.detect_deadlocks().is_ok());
}
