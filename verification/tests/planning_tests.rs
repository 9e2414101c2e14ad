use tricti::ast::{BinaryOperator, Expression, IntegerLiteral, JoinClause, JoinType, Literal, QuerySpec, ResourceAccess};
use tricti::async_runtime::AsyncExecutionError;
use tricti::async_scheduler_integration::{build_conflict_matrix, resolve_conflicts_and_batch};
use tricti::async_table_integration::extract_required_resources;
use tricti::error_propagation::{error_type_name, matches_error_pattern, ErrorPattern};
use tricti::names::StrMap;
use tricti::query::{
    analyze_predicate_complexity, create_optimized_plan_from_analysis, ColumnStatistics, QueryPlan, TableStatistics,
};
use tricti::scheduler::ConflictType;
use tricti::table_values::ColumnValue;

fn number(value: u128) -> Expression {
    Expression::Literal(Literal::Integer(IntegerLiteral { raw: value.to_string(), value, suffix: None }))
}

fn compare(column: &str, operator: BinaryOperator, value: u128) -> Expression {
    Expression::BinaryOp {
        left: Box::new(Expression::Identifier(column.to_string())),
        operator,
        right: Box::new(number(value)),
    }
}

fn and(left: Expression, right: Expression) -> Expression {
    Expression::BinaryOp { left: Box::new(left), operator: BinaryOperator::And, right: Box::new(right) }
}

fn stats() -> TableStatistics {
    let mut column_stats = StrMap::new();
    column_stats.insert(
        "id".to_string(),
        ColumnStatistics {
            column_name: "id".to_string(),
            distinct_count: 1000,
            null_count: 0,
            min_value: None,
            max_value: None,
            is_indexed: true,
        },
    );
    column_stats.insert(
        "age".to_string(),
        ColumnStatistics {
            column_name: "age".to_string(),
            distinct_count: 50,
            null_count: 0,
            min_value: None,
            max_value: None,
            is_indexed: true,
        },
    );
    column_stats.insert(
        "name".to_string(),
        ColumnStatistics {
            column_name: "name".to_string(),
            distinct_count: 900,
            null_count: 0,
            min_value: None,
            max_value: None,
            is_indexed: false,
        },
    );
    TableStatistics {
        table_name: "users".to_string(),
        row_count: 3000,
        column_stats,
        indexed_columns: vec!["id".to_string(), "age".to_string()],
        primary_key_column: Some("id".to_string()),
    }
}

#[test]
fn predicate_analysis_splits_terms() {
    let predicate = and(
        and(compare("id", BinaryOperator::Equal, 7), compare("age", BinaryOperator::Greater, 18)),
        and(compare("age", BinaryOperator::Less, 65), compare("name", BinaryOperator::Equal, 1)),
    );
    let table_stats = stats();
    let analysis = analyze_predicate_complexity(&predicate, &table_stats);

    assert_eq!(analysis.index_eligible_terms.len(), 1);
    let term = &analysis.index_eligible_terms[0];
    assert_eq!(term.column_name, "id");
    assert_eq!(term.estimated_cardinality, 3);
    assert!(term.is_primary_key);
    assert!(matches!(term.value, ColumnValue::U64(7)));

    assert_eq!(analysis.range_scan_terms.len(), 1);
    let range = &analysis.range_scan_terms[0];
    assert_eq!(range.column_name, "age");
    assert!(matches!(range.min_value, Some(ColumnValue::U64(18))));
    assert!(matches!(range.max_value, Some(ColumnValue::U64(65))));
    assert_eq!(range.estimated_cardinality, 1000);

    assert_eq!(analysis.bitmap_filter_terms.len(), 1);
    assert_eq!(analysis.selectivity_factors.and_factors, 3);
    assert_eq!(analysis.selectivity_factors.or_factors, 0);
}

#[test]
fn or_predicates_stay_whole() {
    let predicate = Expression::BinaryOp {
        left: Box::new(compare("id", BinaryOperator::Equal, 1)),
        operator: BinaryOperator::Or,
        right: Box::new(compare("id", BinaryOperator::Equal, 2)),
    };
    let table_stats = stats();
    let analysis = analyze_predicate_complexity(&predicate, &table_stats);
    assert!(analysis.index_eligible_terms.is_empty());
    assert!(analysis.range_scan_terms.is_empty());
    assert_eq!(analysis.bitmap_filter_terms.len(), 1);
    assert_eq!(analysis.selectivity_factors.or_factors, 1);
}

#[test]
fn index_terms_come_out_by_cardinality() {
    let predicate = and(compare("age", BinaryOperator::Equal, 30), compare("id", BinaryOperator::Equal, 9));
    let table_stats = stats();
    let analysis = analyze_predicate_complexity(&predicate, &table_stats);
    let names: Vec<&str> = analysis.index_eligible_terms.iter().map(|t| t.column_name.as_str()).collect();
    assert_eq!(names, vec!["id", "age"]);
    assert_eq!(analysis.index_eligible_terms[1].estimated_cardinality, 60);
}

#[test]
fn plan_prefers_index_then_range_then_filter() {
    let table_stats = stats();
    let predicate = and(compare("id", BinaryOperator::Equal, 7), compare("age", BinaryOperator::Greater, 18));
    let analysis = analyze_predicate_complexity(&predicate, &table_stats);
    let plan = create_optimized_plan_from_analysis(
        "users".to_string(),
        vec![],
        compare("id", BinaryOperator::Equal, 7),
        analysis.index_eligible_terms,
        analysis.range_scan_terms,
    );
    match plan {
        QueryPlan::IndexScan { table_name, index_column, .. } => {
            assert_eq!(table_name, "users");
            assert_eq!(index_column, "id");
        }
        other => panic!("unexpected plan {:?}", other),
    }

    let range_only = compare("age", BinaryOperator::LessEqual, 40);
    let analysis = analyze_predicate_complexity(&range_only, &table_stats);
    let plan = create_optimized_plan_from_analysis(
        "users".to_string(),
        vec![],
        compare("age", BinaryOperator::LessEqual, 40),
        analysis.index_eligible_terms,
        analysis.range_scan_terms,
    );
    assert!(matches!(plan, QueryPlan::RangeScan { .. }));

    let plan = create_optimized_plan_from_analysis(
        "users".to_string(),
        vec![],
        compare("name", BinaryOperator::Equal, 3),
        vec![],
        vec![],
    );
    assert!(matches!(plan, QueryPlan::FilteredScan { .. }));
}

fn accesses(entries: &[(&str, ResourceAccess)]) -> StrMap<ResourceAccess> {
    let mut m = StrMap::new();
    for (name, access) in entries {
        m.insert(name.to_string(), *access);
    }
    m
}

#[test]
fn conflict_matrix_is_symmetric_and_batches_separate_conflicts() {
    let resources = vec![
        accesses(&[("r", ResourceAccess::Mutable)]),
        accesses(&[("r", ResourceAccess::Immutable)]),
        accesses(&[("q", ResourceAccess::Immutable)]),
    ];
    let matrix = build_conflict_matrix(&resources);
    assert_eq!(matrix.has_conflict(0, 1), ConflictType::WriteRead);
    assert_eq!(matrix.has_conflict(1, 0), ConflictType::WriteRead);
    assert_eq!(matrix.has_conflict(0, 2), ConflictType::NoConflict);
    assert_eq!(matrix.has_conflict(1, 1), ConflictType::NoConflict);

    let batches = resolve_conflicts_and_batch(&resources, &matrix);
    assert_eq!(batches, vec![vec![0, 2], vec![1]]);
}

#[test]
fn readers_share_a_batch() {
    let resources = vec![
        accesses(&[("r", ResourceAccess::Immutable)]),
        accesses(&[("r", ResourceAccess::Immutable)]),
    ];
    let matrix = build_conflict_matrix(&resources);
    assert_eq!(resolve_conflicts_and_batch(&resources, &matrix), vec![vec![0, 1]]);
}

#[test]
fn required_resources_list_joined_tables() {
    let query = QuerySpec {
        projections: vec![],
        from_table: "orders".to_string(),
        where_clause: None,
        joins: vec![
            JoinClause { join_type: JoinType::Inner, table: "users".to_string(), condition: Box::new(number(1)) },
            JoinClause { join_type: JoinType::Left, table: "items".to_string(), condition: Box::new(number(1)) },
        ],
    };
    assert_eq!(
        extract_required_resources(&query),
        vec!["orders".to_string(), "users".to_string(), "items".to_string()]
    );
}

#[test]
fn error_patterns_match_by_kind_system_and_resource() {
    let timeout = AsyncExecutionError::Timeout { system: "physics".to_string(), duration: 30 };
    let conflict = AsyncExecutionError::ResourceConflict {
        system: "a".to_string(),
        resource: "world".to_string(),
        reason: "busy".to_string(),
    };
    let failure = AsyncExecutionError::SystemError { system: "render".to_string(), message: "boom".to_string() };

    assert_eq!(error_type_name(&timeout), "Timeout");
    assert_eq!(error_type_name(&conflict), "ResourceConflict");
    assert!(matches_error_pattern(&ErrorPattern::ExactType("Timeout".to_string()), &timeout));
    assert!(!matches_error_pattern(&ErrorPattern::ExactType("Time".to_string()), &timeout));
    assert!(matches_error_pattern(&ErrorPattern::TypePattern("Conflict".to_string()), &conflict));
    assert!(matches_error_pattern(&ErrorPattern::SourceSystem("render".to_string()), &failure));
    assert!(!matches_error_pattern(&ErrorPattern::SourceSystem("render".to_string()), &timeout));
    assert!(matches_error_pattern(&ErrorPattern::ResourceName("world".to_string()), &conflict));
    assert!(!matches_error_pattern(&ErrorPattern::Custom("anything".to_string()), &conflict));
}
