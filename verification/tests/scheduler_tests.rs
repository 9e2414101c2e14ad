use tricti::ast::ResourceAccess;
use tricti::scheduler::{ConflictGraph, ConflictType, ResourceTracker, SchedulerError, SchedulerState};

#[test]
fn test_resource_tracker_immutable_access() {
    let mut tracker = ResourceTracker::new();

    // Multiple immutable accesses should be allowed
    assert!(tracker
        .add_access("resource1", "system1", &ResourceAccess::Immutable)
        .is_ok());
    assert!(tracker
        .add_access("resource1", "system2", &ResourceAccess::Immutable)
        .is_ok());

    // Check that both systems are tracked using safe accessors
    let borrowers = tracker.get_immutable_borrowers("resource1").unwrap();
    assert_eq!(borrowers.len(), 2);
    assert!(borrowers.contains("system1"));
    assert!(borrowers.contains("system2"));
}

#[test]
fn test_resource_tracker_mutable_access_conflict() {
    let mut tracker = ResourceTracker::new();

    // First mutable access should succeed
    assert!(tracker
        .add_access("resource1", "system1", &ResourceAccess::Mutable)
        .is_ok());

    // Second mutable access should fail
    let result = tracker.add_access("resource1", "system2", &ResourceAccess::Mutable);
    assert!(result.is_err());
    match result.unwrap_err() {
        SchedulerError::DuplicateMutableBorrow {
            system1,
            system2,
            resource,
        } => {
            assert_eq!(system1, "system2");
            assert_eq!(system2, "system1");
            assert_eq!(resource, "resource1");
        }
        _ => panic!("Expected DuplicateMutableBorrow error"),
    }
}

#[test]
fn test_resource_tracker_immutable_after_mutable_conflict() {
    let mut tracker = ResourceTracker::new();

    // Mutable access first
    assert!(tracker
        .add_access("resource1", "system1", &ResourceAccess::Mutable)
        .is_ok());

    // Immutable access by different system should fail
    let result = tracker.add_access("resource1", "system2", &ResourceAccess::Immutable);
    assert!(result.is_err());
    match result.unwrap_err() {
        SchedulerError::ResourceConflict {
            system1,
            system2,
            resource,
            conflict_type,
        } => {
            assert_eq!(system1, "system2");
            assert_eq!(system2, "system1");
            assert_eq!(resource, "resource1");
            assert_eq!(conflict_type, ConflictType::ReadWrite);
        }
        _ => panic!("Expected ResourceConflict error"),
    }
}

#[test]
fn tracker_owner_blocks_other_systems() {
    let mut tracker = ResourceTracker::new();
    assert!(tracker.add_access("r", "a", &ResourceAccess::Owned).is_ok());
    match tracker.add_access("r", "b", &ResourceAccess::Immutable).unwrap_err() {
        SchedulerError::InvalidResourceAccess { system, resource, reason } => {
            assert_eq!(system, "b");
            assert_eq!(resource, "r");
            assert_eq!(reason, "Resource is owned by system 'a'");
        }
        _ => panic!("expected InvalidResourceAccess"),
    }
    match tracker.add_access("r", "b", &ResourceAccess::Owned).unwrap_err() {
        SchedulerError::InvalidResourceAccess { reason, .. } => {
            assert_eq!(reason, "Resource is already owned by system 'a'");
        }
        _ => panic!("expected InvalidResourceAccess"),
    }
    // the owner itself may still read and write
    assert!(tracker.add_access("r", "a", &ResourceAccess::Immutable).is_ok());
    assert!(tracker.add_access("r", "a", &ResourceAccess::Mutable).is_ok());
}

#[test]
fn tracker_reader_blocks_writer_and_owner() {
    let mut tracker = ResourceTracker::new();
    assert!(tracker.add_access("r", "a", &ResourceAccess::Immutable).is_ok());
    match tracker.add_access("r", "b", &ResourceAccess::Mutable).unwrap_err() {
        SchedulerError::ResourceConflict { system1, system2, conflict_type, .. } => {
            assert_eq!(system1, "b");
            assert_eq!(system2, "a");
            assert_eq!(conflict_type, ConflictType::WriteRead);
        }
        _ => panic!("expected ResourceConflict"),
    }
    // a sole reader may upgrade to a write borrow
    assert!(tracker.add_access("r", "a", &ResourceAccess::Mutable).is_ok());
    // a write borrow by anyone blocks ownership
    match tracker.add_access("r", "a", &ResourceAccess::Owned).unwrap_err() {
        SchedulerError::ResourceConflict { conflict_type, .. } => {
            assert_eq!(conflict_type, ConflictType::WriteRead);
        }
        _ => panic!("expected ResourceConflict"),
    }
}

#[test]
fn tracker_release_restores_availability() {
    let mut tracker = ResourceTracker::new();
    assert!(tracker.is_resource_available("r"));
    assert!(tracker.add_access("r", "a", &ResourceAccess::Mutable).is_ok());
    assert!(!tracker.is_resource_available("r"));
    assert_eq!(tracker.get_mutable_borrower("r").unwrap(), "a");
    // releasing by a system that does not hold it changes nothing
    tracker.remove_access("r", "b", &ResourceAccess::Mutable);
    assert!(!tracker.is_resource_available("r"));
    tracker.remove_access("r", "a", &ResourceAccess::Mutable);
    assert!(tracker.is_resource_available("r"));
    assert!(tracker.get_mutable_borrower("r").is_none());
    assert!(tracker.add_access("r", "b", &ResourceAccess::Mutable).is_ok());
}

#[test]
fn tracker_summary_counts() {
    let mut tracker = ResourceTracker::new();
    assert!(tracker.add_access("x", "a", &ResourceAccess::Immutable).is_ok());
    assert!(tracker.add_access("x", "b", &ResourceAccess::Immutable).is_ok());
    assert!(tracker.add_access("y", "a", &ResourceAccess::Mutable).is_ok());
    assert!(tracker.add_access("z", "c", &ResourceAccess::Owned).is_ok());
    assert!(tracker.add_access("y", "a", &ResourceAccess::Owned).is_err());
    let summary = tracker.get_resource_summary();
    assert_eq!(summary.total_resources, 3);
    assert_eq!(summary.immutable_borrows, 1);
    assert_eq!(summary.mutable_borrows, 1);
    assert_eq!(summary.owned_resources, 1);
    let active = tracker.get_active_resources();
    assert_eq!(active.len(), 3);
    assert!(active.contains("x") && active.contains("y") && active.contains("z"));
    assert_eq!(tracker.get_resource_owner("z").unwrap(), "c");
    tracker.remove_access("x", "a", &ResourceAccess::Immutable);
    assert_eq!(tracker.get_immutable_borrowers("x").unwrap().len(), 1);
    tracker.remove_access("x", "b", &ResourceAccess::Immutable);
    assert!(tracker.get_immutable_borrowers("x").is_none());
}

#[test]
fn scheduler_state_queue_and_completion() {
    let mut state = SchedulerState::new();
    assert!(state.is_complete());
    state.enqueue_system("s1".to_string());
    assert!(!state.is_complete());
    assert_eq!(state.pending_systems.len(), 1);
    state.complete_system("s1");
    state.enqueue_system("s1".to_string());
    assert_eq!(state.pending_systems.len(), 1);
    assert!(state.completed_systems.contains("s1"));
    assert!(state.try_acquire_resource("r", "s2", &ResourceAccess::Mutable).is_ok());
    assert!(state.can_system_access_resource("r", "s3", &ResourceAccess::Immutable).is_err());
    state.release_resource("r", "s2", &ResourceAccess::Mutable);
    assert!(state.resource_tracker().is_resource_available("r"));
}

#[test]
fn conflict_graph_records_both_directions() {
    let mut graph = ConflictGraph::new();
    graph.add_system("a".to_string());
    graph.add_system("b".to_string());
    graph.add_conflict("a", "b", ConflictType::NoConflict);
    assert!(!graph.has_conflict("a", "b"));
    graph.add_conflict("a", "b", ConflictType::WriteRead);
    assert!(graph.has_conflict("a", "b"));
    assert!(graph.has_conflict("b", "a"));
    assert_eq!(graph.get_conflicts("a"), vec!["b".to_string()]);
    assert_eq!(graph.get_conflicts("c"), Vec::<String>::new());
}

#[test]
fn reader_conflicts_name_the_first_other_reader() {
    let mut tracker = ResourceTracker::new();
    tracker.add_access("r", "x", &ResourceAccess::Immutable).unwrap();
    tracker.add_access("r", "y", &ResourceAccess::Immutable).unwrap();
    let checked = tracker.can_access_resource("r", "x", &ResourceAccess::Mutable);
    match checked {
        Err(SchedulerError::ResourceConflict { system1, system2, conflict_type, .. }) => {
            assert_eq!(system1, "x");
            assert_eq!(system2, "y");
            assert_eq!(conflict_type, ConflictType::WriteRead);
        }
        _ => panic!("expected a read conflict"),
    }
    match tracker.add_access("r", "z", &ResourceAccess::Owned) {
        Err(SchedulerError::ResourceConflict { system1, system2, .. }) => {
            assert_eq!(system1, "z");
            assert_eq!(system2, "x");
        }
        _ => panic!("expected a read conflict"),
    }
    match tracker.add_access("r", "x", &ResourceAccess::Mutable) {
        Err(SchedulerError::ResourceConflict { system2, .. }) => assert_eq!(system2, "y"),
        _ => panic!("taking the access answers as checking it does"),
    }
}
