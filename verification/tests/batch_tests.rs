use tricti::ast::{Expression, IntegerLiteral, JoinClause, JoinType, Literal, QuerySpec, ResourceAccess};
use tricti::async_runtime::TaskId;
use tricti::resource_lifecycle::{ResourceLifecycleManager, ResourceLifecyclePolicies};
use tricti::async_table_integration::{
    acquire_query_tables, TableAdmission,
    determine_access_type, determine_batch_access_type, group_queries_by_resources, is_read_only_query,
};

fn one() -> Expression {
    Expression::Literal(Literal::Integer(IntegerLiteral { raw: "1".to_string(), value: 1, suffix: None }))
}

fn query(from: &str, joins: &[&str]) -> QuerySpec {
    QuerySpec {
        projections: vec![],
        from_table: from.to_string(),
        where_clause: None,
        joins: joins
            .iter()
            .map(|t| JoinClause { join_type: JoinType::Inner, table: t.to_string(), condition: Box::new(one()) })
            .collect(),
    }
}

fn names(v: &[String]) -> Vec<&str> {
    v.iter().map(|s| s.as_str()).collect()
}

#[test]
fn queries_sharing_tables_are_grouped() {
    let queries = vec![
        query("users", &[]),
        query("orders", &["users"]),
        query("items", &[]),
        query("items", &["logs"]),
        query("logs", &[]),
    ];
    let groups = group_queries_by_resources(&queries);
    assert_eq!(groups.len(), 2);
    assert_eq!(names(&groups[0].0), vec!["users", "orders"]);
    assert_eq!(groups[0].1, vec![0, 1]);
    assert_eq!(names(&groups[1].0), vec!["items", "logs"]);
    assert_eq!(groups[1].1, vec![2, 3, 4]);
}

#[test]
fn grouping_looks_at_each_query_once_per_group() {
    // The second query shares a table only with what the group gains after it was looked at.
    let queries = vec![query("a", &[]), query("b", &[]), query("a", &["b"])];
    let groups = group_queries_by_resources(&queries);
    assert_eq!(groups.len(), 2);
    assert_eq!(names(&groups[0].0), vec!["a", "b"]);
    assert_eq!(groups[0].1, vec![0, 2]);
    assert_eq!(names(&groups[1].0), vec!["b"]);
    assert_eq!(groups[1].1, vec![1]);
}

#[test]
fn repeated_tables_of_the_first_query_are_kept() {
    let queries = vec![query("a", &["a"]), query("a", &["c", "c"])];
    let groups = group_queries_by_resources(&queries);
    assert_eq!(groups.len(), 1);
    assert_eq!(names(&groups[0].0), vec!["a", "a", "c"]);
    assert_eq!(groups[0].1, vec![0, 1]);
}

#[test]
fn empty_batch_has_no_groups() {
    assert!(group_queries_by_resources(&vec![]).is_empty());
}

#[test]
fn queries_read_so_access_is_shared() {
    let q = query("users", &[]);
    assert!(is_read_only_query(&q));
    assert_eq!(determine_access_type(&q, "users"), ResourceAccess::Immutable);
    assert_eq!(determine_batch_access_type(&vec![q], "users"), ResourceAccess::Immutable);
}

#[test]
fn query_tables_are_leased_until_one_is_held() {
    let mut manager = ResourceLifecycleManager::new(ResourceLifecyclePolicies::default());
    let writer = TaskId::from_raw(9);
    let reader = TaskId::from_raw(1);
    manager.acquire_resource("orders".to_string(), writer, ResourceAccess::Mutable, Some(500), 0).unwrap();
    let tables = vec!["users".to_string(), "orders".to_string(), "items".to_string()];
    match acquire_query_tables(&mut manager, reader, &tables, ResourceAccess::Immutable, 10_000, 200) {
        TableAdmission::Wait { resource, estimated_wait_time } => {
            assert_eq!(resource, "orders");
            assert_eq!(estimated_wait_time, 300);
        }
        TableAdmission::Ready => panic!("the written table keeps the query out"),
    }
    assert_eq!(manager.get_resource_stats_at(200).active_leases, 2);
    let free = vec!["users".to_string(), "items".to_string()];
    assert!(matches!(
        acquire_query_tables(&mut manager, reader, &free, ResourceAccess::Immutable, 10_000, 300),
        TableAdmission::Ready
    ));
    assert_eq!(manager.get_resource_stats_at(300).active_leases, 3);
}
