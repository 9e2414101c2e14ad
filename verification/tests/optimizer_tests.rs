use tricti::ast::{BinaryOperator, Expression, IntegerLiteral, Literal};
use tricti::names::StrMap;
use tricti::query::{
    BuildSide, ColumnStatistics, FieldProjection, JoinCondition, JoinType, OptimizationContext, OptimizationHint,
    QueryPlan, TableStatistics, WhereClause,
};
use tricti::table_values::ColumnValue;

fn number(value: u128) -> Expression {
    Expression::Literal(Literal::Integer(IntegerLiteral { raw: value.to_string(), value, suffix: None }))
}

fn compare(column: &str, operator: BinaryOperator, value: u128) -> Expression {
    Expression::BinaryOp {
        left: Box::new(Expression::Identifier(column.to_string())),
        operator,
        right: Box::new(number(value)),
    }
}

fn column(name: &str, indexed: bool) -> ColumnStatistics {
    ColumnStatistics {
        column_name: name.to_string(),
        distinct_count: 10,
        null_count: 0,
        min_value: None,
        max_value: None,
        is_indexed: indexed,
    }
}

fn table(name: &str, rows: usize, columns: &[(&str, bool)], indexed: &[&str]) -> TableStatistics {
    let mut column_stats = StrMap::new();
    for (c, i) in columns {
        column_stats.insert(c.to_string(), column(c, *i));
    }
    TableStatistics {
        table_name: name.to_string(),
        row_count: rows,
        column_stats,
        indexed_columns: indexed.iter().map(|s| s.to_string()).collect(),
        primary_key_column: None,
    }
}

fn context(tables: Vec<TableStatistics>) -> OptimizationContext {
    let mut ctx = OptimizationContext::default();
    for t in tables {
        ctx.table_stats.insert(t.table_name.clone(), t);
    }
    ctx
}

fn scan(name: &str) -> QueryPlan {
    QueryPlan::TableScan { table_name: name.to_string(), projection: vec![FieldProjection::column("id".to_string())] }
}

fn nested(left: &str, right: &str) -> QueryPlan {
    QueryPlan::NestedLoopJoin {
        left_input: Box::new(scan(left)),
        right_input: Box::new(scan(right)),
        join_type: JoinType::Inner,
        join_condition: JoinCondition::eq("id".to_string(), "ref_id".to_string()),
        left_projection: vec![],
        right_projection: vec![],
    }
}

#[test]
fn default_context_turns_every_pass_on() {
    let ctx = OptimizationContext::default();
    assert!(ctx.enable_predicate_pushdown);
    assert!(ctx.enable_join_reordering);
    assert!(ctx.enable_index_optimization);
    assert!(ctx.enable_complex_predicate_analysis);
    assert_eq!(f64::from_bits(ctx.cost_threshold), 1000.0);
    assert_eq!(ctx.table_stats.len(), 0);
}

#[test]
fn logical_select_puts_a_filter_over_the_scan() {
    let plan = QueryPlan::logical_select("users".to_string(), vec![], Some(compare("age", BinaryOperator::Less, 30)));
    match plan {
        QueryPlan::Filter { input, .. } => {
            assert!(matches!(*input, QueryPlan::TableScan { ref table_name, .. } if table_name == "users"));
        }
        _ => panic!("expected a filter"),
    }
    let plain = QueryPlan::logical_select("users".to_string(), vec![], None);
    assert!(matches!(plain, QueryPlan::TableScan { .. }));
}

#[test]
fn logical_join_adds_missing_join_columns_to_the_scans() {
    let plan = QueryPlan::logical_join(
        "orders".to_string(),
        "users".to_string(),
        JoinType::LeftOuter,
        JoinCondition::eq("user_id".to_string(), "id".to_string()),
        vec![FieldProjection::column("total".to_string())],
        vec![FieldProjection::column("id".to_string())],
    );
    match plan {
        QueryPlan::NestedLoopJoin { left_input, right_input, join_type, left_projection, .. } => {
            assert_eq!(join_type, JoinType::LeftOuter);
            assert_eq!(left_projection.len(), 1);
            match *left_input {
                QueryPlan::TableScan { table_name, projection } => {
                    assert_eq!(table_name, "orders");
                    let names: Vec<&str> = projection.iter().map(|p| p.source_column.as_str()).collect();
                    assert_eq!(names, vec!["total", "user_id"]);
                }
                _ => panic!("expected a scan"),
            }
            match *right_input {
                QueryPlan::TableScan { table_name, projection } => {
                    assert_eq!(table_name, "users");
                    let names: Vec<&str> = projection.iter().map(|p| p.source_column.as_str()).collect();
                    assert_eq!(names, vec!["id"]);
                }
                _ => panic!("expected a scan"),
            }
        }
        _ => panic!("expected a nested loop join"),
    }
}

#[test]
fn optimize_select_builds_a_filtered_scan_and_records_passes() {
    let clause = WhereClause::new(compare("age", BinaryOperator::Greater, 18))
        .with_hint(OptimizationHint::UseIndex("age".to_string()));
    let plan = QueryPlan::select("users".to_string(), vec![FieldProjection::column("name".to_string())], Some(clause));
    match plan.optimize() {
        QueryPlan::Select { table_name, optimization, physical_plan, .. } => {
            assert_eq!(table_name, "users");
            assert!(optimization.predicate_pushdown);
            assert!(optimization.index_optimization);
            assert!(optimization.join_reordering);
            assert!(optimization.complex_predicate_analysis);
            match *physical_plan.expect("planned") {
                QueryPlan::FilteredScan { table_name, projection, .. } => {
                    assert_eq!(table_name, "users");
                    assert_eq!(projection.len(), 1);
                    assert_eq!(projection[0].source_column, "name");
                }
                _ => panic!("expected a filtered scan"),
            }
        }
        _ => panic!("expected a select"),
    }
}

#[test]
fn optimize_select_without_filter_scans_the_table() {
    let plan = QueryPlan::select("users".to_string(), vec![], None);
    match plan.optimize() {
        QueryPlan::Select { optimization, physical_plan, .. } => {
            assert!(!optimization.predicate_pushdown);
            assert!(!optimization.index_optimization);
            assert!(matches!(*physical_plan.expect("planned"), QueryPlan::TableScan { .. }));
        }
        _ => panic!("expected a select"),
    }
}

#[test]
fn optimize_join_plans_a_nested_loop_join() {
    let plan = QueryPlan::join(
        "orders".to_string(),
        "users".to_string(),
        JoinType::Inner,
        JoinCondition::eq("user_id".to_string(), "id".to_string()),
        vec![],
        vec![],
    );
    match plan.optimize() {
        QueryPlan::Join { optimization, physical_plan, .. } => {
            assert!(optimization.predicate_pushdown && optimization.index_optimization);
            match *physical_plan.expect("planned") {
                QueryPlan::NestedLoopJoin { left_input, right_input, .. } => {
                    assert!(matches!(*left_input, QueryPlan::TableScan { ref table_name, .. } if table_name == "orders"));
                    assert!(matches!(*right_input, QueryPlan::TableScan { ref table_name, .. } if table_name == "users"));
                }
                _ => panic!("expected a nested loop join"),
            }
        }
        _ => panic!("expected a join"),
    }
}

#[test]
fn optimize_merges_a_filter_into_its_scan() {
    let plan = QueryPlan::Filter { input: Box::new(scan("users")), predicate: compare("age", BinaryOperator::Less, 3) };
    assert!(matches!(plan.optimize(), QueryPlan::FilteredScan { .. }));
}

#[test]
fn analysis_with_statistics_picks_an_index_lookup() {
    let ctx = context(vec![table("users", 3000, &[("id", true)], &[])]);
    let plan = QueryPlan::select(
        "users".to_string(),
        vec![],
        Some(WhereClause::new(compare("id", BinaryOperator::Equal, 7))),
    );
    match plan.optimize_with_context(&ctx) {
        QueryPlan::IndexScan { table_name, index_column, index_value, .. } => {
            assert_eq!(table_name, "users");
            assert_eq!(index_column, "id");
            assert!(matches!(index_value, ColumnValue::U64(7)));
        }
        other => panic!("expected an index lookup, got {:?}", other),
    }
}

#[test]
fn index_selection_picks_a_range_scan() {
    let mut ctx = context(vec![table("users", 3000, &[("age", false)], &["age"])]);
    ctx.enable_complex_predicate_analysis = false;
    let plan = QueryPlan::Filter { input: Box::new(scan("users")), predicate: compare("age", BinaryOperator::GreaterEqual, 21) };
    match plan.optimize_with_context(&ctx) {
        QueryPlan::RangeScan { index_column, min_value, max_value, .. } => {
            assert_eq!(index_column, "age");
            assert!(matches!(min_value, Some(ColumnValue::U64(21))));
            assert!(max_value.is_none());
        }
        other => panic!("expected a range scan, got {:?}", other),
    }
}

#[test]
fn passes_that_are_off_leave_the_plan() {
    let mut ctx = context(vec![]);
    ctx.enable_predicate_pushdown = false;
    let plan = QueryPlan::Filter { input: Box::new(scan("users")), predicate: compare("age", BinaryOperator::Less, 3) };
    assert!(matches!(plan.optimize_with_context(&ctx), QueryPlan::Filter { .. }));
}

#[test]
fn indexed_right_table_gives_an_index_nested_loop_join() {
    let ctx = context(vec![table("orders", 10, &[], &[]), table("users", 10, &[], &["ref_id"])]);
    match nested("orders", "users").optimize_with_context(&ctx) {
        QueryPlan::IndexNestedLoopJoin { right_table, right_index_column, .. } => {
            assert_eq!(right_table, "users");
            assert_eq!(right_index_column, "ref_id");
        }
        other => panic!("expected an index nested loop join, got {:?}", other),
    }
}

#[test]
fn small_tables_keep_the_nested_loop_join() {
    // 1 * 1 costs less than 1.5 * (1 + 1).
    let ctx = context(vec![table("a", 1, &[], &[]), table("b", 1, &[], &[])]);
    assert!(matches!(nested("a", "b").optimize_with_context(&ctx), QueryPlan::NestedLoopJoin { .. }));
}

#[test]
fn large_tables_get_a_hash_join_built_from_the_first_name() {
    // 100 * 100 costs more than 1.5 * (100 + 100).
    let ctx = context(vec![table("a", 100, &[], &[]), table("b", 100, &[], &[])]);
    match nested("a", "b").optimize_with_context(&ctx) {
        QueryPlan::HashJoin { build_side, .. } => assert_eq!(build_side, BuildSide::Left),
        other => panic!("expected a hash join, got {:?}", other),
    }
    match nested("b", "a").optimize_with_context(&ctx) {
        QueryPlan::HashJoin { build_side, .. } => assert_eq!(build_side, BuildSide::Right),
        other => panic!("expected a hash join, got {:?}", other),
    }
}

#[test]
fn cheap_index_join_wins_the_cost_model() {
    // Nested loop 10 * 1000, hash join 1.5 * 1010, index join 2 * 10: the index join wins.
    let mut ctx = context(vec![table("a", 10, &[], &[]), table("b", 1000, &[("ref_id", true)], &[])]);
    ctx.enable_index_optimization = false;
    match nested("a", "b").optimize_with_context(&ctx) {
        QueryPlan::IndexNestedLoopJoin { right_table, right_index_column, .. } => {
            assert_eq!(right_table, "b");
            assert_eq!(right_index_column, "ref_id");
        }
        other => panic!("expected an index nested loop join, got {:?}", other),
    }
}

#[test]
fn join_without_statistics_stays_nested() {
    let ctx = context(vec![table("a", 100, &[], &[])]);
    assert!(matches!(nested("a", "b").optimize_with_context(&ctx), QueryPlan::NestedLoopJoin { .. }));
}
