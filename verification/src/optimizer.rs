//! The passes that rewrite a logical query plan into a physical one: predicate analysis,
//! predicate pushdown, index selection and cost-based join selection.
use vstd::prelude::*;

use crate::ast::{BinaryOperator, Expression};
use crate::names::{find_string, string_views};
use crate::ast_copy::{copy_expression, expr_copied};
use crate::query::{
    analyze_predicate_complexity, FieldProjection, JoinType, QueryOptimization, WhereClause, OptimizationHint, create_optimized_plan_from_analysis, index_views, literal_to_column_value,
    literal_view, predicate_terms, range_views, sort_index_views, sort_range_views, BuildSide, JoinCondition,
    JoinMethod, JoinOrderCandidate, OptimizationContext, QueryPlan, TableStatistics,
};
use crate::table_values::{option_value_view, ColumnValue, ColumnValueView};
use crate::text::{text_before, text_less};

verus! {

broadcast use vstd::seq_lib::group_seq_properties;

/// The tables a plan reads, left input first. A high-level plan that has been planned reads
/// the tables of its physical plan.
pub open spec fn plan_tables(p: QueryPlan) -> Seq<String>
    decreases p,
{
    match p {
        QueryPlan::Select { table_name, physical_plan, .. } => match physical_plan {
            Some(inner) => plan_tables(*inner),
            None => seq![table_name],
        },
        QueryPlan::Join { left_table, right_table, physical_plan, .. } => match physical_plan {
            Some(inner) => plan_tables(*inner),
            None => seq![left_table, right_table],
        },
        QueryPlan::TableScan { table_name, .. } => seq![table_name],
        QueryPlan::FilteredScan { table_name, .. } => seq![table_name],
        QueryPlan::IndexScan { table_name, .. } => seq![table_name],
        QueryPlan::RangeScan { table_name, .. } => seq![table_name],
        QueryPlan::NestedLoopJoin { left_input, right_input, .. } => plan_tables(*left_input) + plan_tables(
            *right_input,
        ),
        QueryPlan::HashJoin { left_input, right_input, .. } => plan_tables(*left_input) + plan_tables(*right_input),
        QueryPlan::IndexNestedLoopJoin { left_input, right_table, .. } => plan_tables(*left_input).push(right_table),
        QueryPlan::Projection { input, .. } => plan_tables(*input),
        QueryPlan::Filter { input, .. } => plan_tables(*input),
    }
}

/// The plan with every filter that sits directly on a table scan merged into the scan; joins
/// pass the rewrite on to their inputs, a filter on anything else to its input.
pub open spec fn pushed_down(p: QueryPlan) -> QueryPlan
    decreases p,
{
    match p {
        QueryPlan::Filter { input, predicate } => match *input {
            QueryPlan::TableScan { table_name, projection } => QueryPlan::FilteredScan {
                table_name,
                projection,
                predicate,
            },
            _ => QueryPlan::Filter { input: Box::new(pushed_down(*input)), predicate },
        },
        QueryPlan::NestedLoopJoin {
            left_input,
            right_input,
            join_type,
            join_condition,
            left_projection,
            right_projection,
        } => QueryPlan::NestedLoopJoin {
            left_input: Box::new(pushed_down(*left_input)),
            right_input: Box::new(pushed_down(*right_input)),
            join_type,
            join_condition,
            left_projection,
            right_projection,
        },
        QueryPlan::HashJoin {
            left_input,
            right_input,
            join_type,
            join_condition,
            left_projection,
            right_projection,
            build_side,
        } => QueryPlan::HashJoin {
            left_input: Box::new(pushed_down(*left_input)),
            right_input: Box::new(pushed_down(*right_input)),
            join_type,
            join_condition,
            left_projection,
            right_projection,
            build_side,
        },
        _ => p,
    }
}

/// Whether `r` is the scan that the analysis of `predicate` against `stats` picks: a lookup on
/// the index term of smallest cardinality if there is one, else a range scan on the range term
/// of smallest cardinality if there is one, else a filtered scan with the whole predicate.
pub open spec fn scan_from_terms(
    r: QueryPlan,
    table_name: String,
    projection: Vec<crate::query::FieldProjection>,
    predicate: Expression,
    stats: TableStatistics,
) -> bool {
    let t = predicate_terms(predicate, stats);
    let iv = sort_index_views(t.0);
    let rv = sort_range_views(t.1);
    if iv.len() > 0 {
        r matches QueryPlan::IndexScan { table_name: a, projection: b, index_column: c, index_value: d }
            && a == table_name && b == projection && c@ == iv[0].0 && d@ == iv[0].2
    } else if rv.len() > 0 {
        r matches QueryPlan::RangeScan { table_name: a, projection: b, index_column: c, min_value: lo, max_value: hi }
            && a == table_name && b == projection && c@ == rv[0].0 && option_value_view(lo) == rv[0].1
            && option_value_view(hi) == rv[0].2
    } else {
        r == QueryPlan::FilteredScan { table_name, projection, predicate }
    }
}

/// Whether `r` is `p` after predicate analysis: a filter directly on a scan of a table with
/// statistics becomes the scan that the analysis picks; other filters and nested loop joins
/// pass the rewrite on to their inputs; everything else stays.
pub open spec fn analysed(p: QueryPlan, r: QueryPlan, stats: Map<Seq<char>, TableStatistics>) -> bool
    decreases p,
{
    match p {
        QueryPlan::Filter { input, predicate } => match *input {
            QueryPlan::TableScan { table_name, projection } => if stats.contains_key(table_name@) {
                scan_from_terms(r, table_name, projection, predicate, stats[table_name@])
            } else {
                r == p
            },
            _ => r matches QueryPlan::Filter { input: ri, predicate: rp } && rp == predicate && analysed(
                *input,
                *ri,
                stats,
            ),
        },
        QueryPlan::NestedLoopJoin {
            left_input,
            right_input,
            join_type,
            join_condition,
            left_projection,
            right_projection,
        } => r matches QueryPlan::NestedLoopJoin {
            left_input: rl,
            right_input: rr,
            join_type: a,
            join_condition: b,
            left_projection: c,
            right_projection: d,
        } && a == join_type && b == join_condition && c == left_projection && d == right_projection
            && analysed(*left_input, *rl, stats) && analysed(*right_input, *rr, stats),
        _ => r == p,
    }
}

/// Whether `column` is among the indexed columns of `table`.
pub open spec fn column_indexed(stats: Map<Seq<char>, TableStatistics>, table: Seq<char>, column: Seq<char>) -> bool {
    stats.contains_key(table) && string_views(stats[table].indexed_columns@).contains(column)
}

/// The column and value of an equality `column == literal` on an indexed column of `table`.
pub open spec fn index_lookup(predicate: Expression, stats: Map<Seq<char>, TableStatistics>, table: Seq<char>) -> Option<
    (Seq<char>, ColumnValueView),
> {
    match predicate {
        Expression::BinaryOp { left, operator, right } => match *left {
            Expression::Identifier(c) => match *right {
                Expression::Literal(lit) => if operator == BinaryOperator::Equal && column_indexed(stats, table, c@) {
                    Some((c@, literal_view(lit)))
                } else {
                    None
                },
                _ => None,
            },
            _ => None,
        },
        _ => None,
    }
}

/// The column and bounds of a comparison `column < literal` (or `<=`, `>`, `>=`) on an indexed
/// column of `table`: `>` and `>=` give a lower bound, `<` and `<=` an upper one.
pub open spec fn range_lookup(predicate: Expression, stats: Map<Seq<char>, TableStatistics>, table: Seq<char>) -> Option<
    (Seq<char>, Option<ColumnValueView>, Option<ColumnValueView>),
> {
    match predicate {
        Expression::BinaryOp { left, operator, right } => match *left {
            Expression::Identifier(c) => match *right {
                Expression::Literal(lit) => if column_indexed(stats, table, c@) {
                    if operator == BinaryOperator::Greater || operator == BinaryOperator::GreaterEqual {
                        Some((c@, Some(literal_view(lit)), None))
                    } else if operator == BinaryOperator::Less || operator == BinaryOperator::LessEqual {
                        Some((c@, None, Some(literal_view(lit))))
                    } else {
                        None
                    }
                } else {
                    None
                },
                _ => None,
            },
            _ => None,
        },
        _ => None,
    }
}

/// Whether `right` scans a table whose statistics index the join's right column.
pub open spec fn right_scan_indexed(right: QueryPlan, join_condition: JoinCondition, stats: Map<Seq<char>, TableStatistics>) -> bool {
    right matches QueryPlan::TableScan { table_name, .. } && column_indexed(
        stats,
        table_name@,
        join_condition.right_column@,
    )
}

/// Whether `r` is `p` after index selection: a filtered scan becomes an index lookup for an
/// equality on an indexed column, else a range scan for a comparison on one; a nested loop join
/// whose right input scans a table indexed on the join column becomes an index nested loop
/// join; other nested loop joins pass the rewrite on to their inputs; everything else stays.
pub open spec fn index_optimized(p: QueryPlan, r: QueryPlan, stats: Map<Seq<char>, TableStatistics>) -> bool
    decreases p,
{
    match p {
        QueryPlan::FilteredScan { table_name, projection, predicate } => match index_lookup(
            predicate,
            stats,
            table_name@,
        ) {
            Some(found) => r matches QueryPlan::IndexScan { table_name: a, projection: b, index_column: c, index_value: d }
                && a == table_name && b == projection && c@ == found.0 && d@ == found.1,
            None => match range_lookup(predicate, stats, table_name@) {
                Some(found) => r matches QueryPlan::RangeScan {
                    table_name: a,
                    projection: b,
                    index_column: c,
                    min_value: lo,
                    max_value: hi,
                } && a == table_name && b == projection && c@ == found.0 && option_value_view(lo) == found.1
                    && option_value_view(hi) == found.2,
                None => r == p,
            },
        },
        QueryPlan::NestedLoopJoin {
            left_input,
            right_input,
            join_type,
            join_condition,
            left_projection,
            right_projection,
        } => if right_scan_indexed(*right_input, join_condition, stats) {
            r matches QueryPlan::IndexNestedLoopJoin {
                left_input: rl,
                right_table: t,
                join_type: a,
                join_condition: b,
                left_projection: c,
                right_projection: d,
                right_index_column: e,
            } && t == (*right_input)->TableScan_table_name && a == join_type && b == join_condition && c == left_projection
                && d == right_projection && e == join_condition.right_column && index_optimized(
                *left_input,
                *rl,
                stats,
            )
        } else {
            r matches QueryPlan::NestedLoopJoin {
                left_input: rl,
                right_input: rr,
                join_type: a,
                join_condition: b,
                left_projection: c,
                right_projection: d,
            } && a == join_type && b == join_condition && c == left_projection && d == right_projection
                && index_optimized(*left_input, *rl, stats) && index_optimized(*right_input, *rr, stats)
        },
        _ => r == p,
    }
}

impl QueryPlan {
    /// The tables the plan reads, left input first.
    fn extract_table_names(plan: &QueryPlan) -> (r: Vec<String>)
        ensures
            r@ == plan_tables(*plan),
        decreases plan,
    {
        match plan {
            QueryPlan::Select { table_name, physical_plan, .. } => match physical_plan {
                Some(inner) => QueryPlan::extract_table_names(&**inner),
                None => {
                    let mut v: Vec<String> = Vec::new();
                    v.push(table_name.clone());
                    v
                },
            },
            QueryPlan::Join { left_table, right_table, physical_plan, .. } => match physical_plan {
                Some(inner) => QueryPlan::extract_table_names(&**inner),
                None => {
                    let mut v: Vec<String> = Vec::new();
                    v.push(left_table.clone());
                    v.push(right_table.clone());
                    v
                },
            },
            QueryPlan::TableScan { table_name, .. } | QueryPlan::FilteredScan { table_name, .. }
            | QueryPlan::IndexScan { table_name, .. } | QueryPlan::RangeScan { table_name, .. } => {
                let mut v: Vec<String> = Vec::new();
                v.push(table_name.clone());
                v
            },
            QueryPlan::NestedLoopJoin { left_input, right_input, .. } | QueryPlan::HashJoin {
                left_input,
                right_input,
                ..
            } => {
                let mut tables = QueryPlan::extract_table_names(&**left_input);
                let mut more = QueryPlan::extract_table_names(&**right_input);
                tables.append(&mut more);
                tables
            },
            QueryPlan::IndexNestedLoopJoin { left_input, right_table, .. } => {
                let mut tables = QueryPlan::extract_table_names(&**left_input);
                tables.push(right_table.clone());
                tables
            },
            QueryPlan::Projection { input, .. } | QueryPlan::Filter { input, .. } => QueryPlan::extract_table_names(
                &**input,
            ),
        }
    }

    /// Merges each filter that sits directly on a table scan into the scan.
    fn apply_predicate_pushdown(self, context: &OptimizationContext) -> (r: QueryPlan)
        ensures
            r == pushed_down(self),
        decreases self,
    {
        match self {
            QueryPlan::Filter { input, predicate } => match *input {
                QueryPlan::TableScan { table_name, projection } => QueryPlan::FilteredScan {
                    table_name,
                    projection,
                    predicate,
                },
                other => QueryPlan::Filter { input: Box::new(other.apply_predicate_pushdown(context)), predicate },
            },
            QueryPlan::NestedLoopJoin {
                left_input,
                right_input,
                join_type,
                join_condition,
                left_projection,
                right_projection,
            } => QueryPlan::NestedLoopJoin {
                left_input: Box::new((*left_input).apply_predicate_pushdown(context)),
                right_input: Box::new((*right_input).apply_predicate_pushdown(context)),
                join_type,
                join_condition,
                left_projection,
                right_projection,
            },
            QueryPlan::HashJoin {
                left_input,
                right_input,
                join_type,
                join_condition,
                left_projection,
                right_projection,
                build_side,
            } => QueryPlan::HashJoin {
                left_input: Box::new((*left_input).apply_predicate_pushdown(context)),
                right_input: Box::new((*right_input).apply_predicate_pushdown(context)),
                join_type,
                join_condition,
                left_projection,
                right_projection,
                build_side,
            },
            other => other,
        }
    }

    /// Replaces each filter on a scan of a table with statistics by the scan that the analysis
    /// of its predicate picks.
    fn apply_complex_predicate_analysis(self, context: &OptimizationContext) -> (r: QueryPlan)
        requires
            context.wf(),
        ensures
            analysed(self, r, context.table_stats@),
        decreases self,
    {
        let ghost p = self;
        match self {
            QueryPlan::Filter { input, predicate } => match *input {
                QueryPlan::TableScan { table_name, projection } => {
                    match context.table_stats.get(table_name.as_str()) {
                        Some(table_stats) => {
                            let (index_terms, range_terms) = {
                                let analysis = analyze_predicate_complexity(&predicate, table_stats);
                                (analysis.index_eligible_terms, analysis.range_scan_terms)
                            };
                            let ghost t = predicate_terms(predicate, *table_stats);
                            let r = create_optimized_plan_from_analysis(
                                table_name,
                                projection,
                                predicate,
                                index_terms,
                                range_terms,
                            );
                            proof {
                                if index_terms@.len() > 0 {
                                    assert(index_views(index_terms@)[0] == sort_index_views(t.0)[0]);
                                } else if range_terms@.len() > 0 {
                                    assert(range_views(range_terms@)[0] == sort_range_views(t.1)[0]);
                                }
                            }
                            r
                        },
                        None => QueryPlan::Filter {
                            input: Box::new(QueryPlan::TableScan { table_name, projection }),
                            predicate,
                        },
                    }
                },
                other => QueryPlan::Filter {
                    input: Box::new(other.apply_complex_predicate_analysis(context)),
                    predicate,
                },
            },
            QueryPlan::NestedLoopJoin {
                left_input,
                right_input,
                join_type,
                join_condition,
                left_projection,
                right_projection,
            } => QueryPlan::NestedLoopJoin {
                left_input: Box::new((*left_input).apply_complex_predicate_analysis(context)),
                right_input: Box::new((*right_input).apply_complex_predicate_analysis(context)),
                join_type,
                join_condition,
                left_projection,
                right_projection,
            },
            other => other,
        }
    }
}

/// Whether `column` is among the indexed columns of the statistics of `table_name`.
fn is_indexed_column(context: &OptimizationContext, table_name: &str, column: &String) -> (r: bool)
    requires
        context.wf(),
    ensures
        r == column_indexed(context.table_stats@, table_name@, column@),
{
    match context.table_stats.get(table_name) {
        Some(stats) => {
            let found = find_string(&stats.indexed_columns, column);
            proof {
                let names = string_views(stats.indexed_columns@);
                match found {
                    Some(i) => {
                        assert(names[i as int] == column@);
                    },
                    None => {
                        assert forall|j: int| 0 <= j < names.len() implies names[j] != column@ by {
                            assert(names[j] == stats.indexed_columns@[j]@);
                        }
                    },
                }
            }
            found.is_some()
        },
        None => false,
    }
}

impl QueryPlan {
    /// The column and value of an equality on an indexed column, which an index lookup answers.
    fn extract_index_predicate(predicate: &Expression, context: &OptimizationContext, table_name: &str) -> (r: Option<
        (String, ColumnValue),
    >)
        requires
            context.wf(),
        ensures
            match r {
                Some(found) => index_lookup(*predicate, context.table_stats@, table_name@) == Some(
                    (found.0@, found.1@),
                ),
                None => index_lookup(*predicate, context.table_stats@, table_name@) is None,
            },
    {
        match predicate {
            Expression::BinaryOp { left, operator, right } => {
                if *operator == BinaryOperator::Equal {
                    match (&**left, &**right) {
                        (Expression::Identifier(column_name), Expression::Literal(literal)) => {
                            if is_indexed_column(context, table_name, column_name) {
                                match literal_to_column_value(literal) {
                                    Ok(value) => {
                                        return Some((column_name.clone(), value));
                                    },
                                    Err(_) => {},
                                }
                            }
                        },
                        _ => {},
                    }
                }
            },
            _ => {},
        }
        None
    }

    /// The column and bounds of a comparison on an indexed column, which a range scan answers.
    fn extract_range_predicate(predicate: &Expression, context: &OptimizationContext, table_name: &str) -> (r: Option<
        (String, Option<ColumnValue>, Option<ColumnValue>),
    >)
        requires
            context.wf(),
        ensures
            match r {
                Some(found) => range_lookup(*predicate, context.table_stats@, table_name@) == Some(
                    (found.0@, option_value_view(found.1), option_value_view(found.2)),
                ),
                None => range_lookup(*predicate, context.table_stats@, table_name@) is None,
            },
    {
        match predicate {
            Expression::BinaryOp { left, operator, right } => {
                match &**left {
                    Expression::Identifier(column_name) => {
                        if is_indexed_column(context, table_name, column_name) {
                            match &**right {
                                Expression::Literal(literal) => {
                                    match literal_to_column_value(literal) {
                                        Ok(value) => {
                                            match operator {
                                                BinaryOperator::Greater | BinaryOperator::GreaterEqual => {
                                                    return Some((column_name.clone(), Some(value), None));
                                                },
                                                BinaryOperator::Less | BinaryOperator::LessEqual => {
                                                    return Some((column_name.clone(), None, Some(value)));
                                                },
                                                _ => {},
                                            }
                                        },
                                        Err(_) => {},
                                    }
                                },
                                _ => {},
                            }
                        }
                    },
                    _ => {},
                }
            },
            _ => {},
        }
        None
    }

    /// Turns filtered scans into index lookups or range scans where an index answers the
    /// predicate, and nested loop joins into index nested loop joins where the right input's
    /// table is indexed on the join column.
    fn apply_index_optimization(self, context: &OptimizationContext) -> (r: QueryPlan)
        requires
            context.wf(),
        ensures
            index_optimized(self, r, context.table_stats@),
        decreases self,
    {
        match self {
            QueryPlan::FilteredScan { table_name, projection, predicate } => {
                match QueryPlan::extract_index_predicate(&predicate, context, table_name.as_str()) {
                    Some((index_column, index_value)) => QueryPlan::IndexScan {
                        table_name,
                        projection,
                        index_column,
                        index_value,
                    },
                    None => match QueryPlan::extract_range_predicate(&predicate, context, table_name.as_str()) {
                        Some((index_column, min_value, max_value)) => QueryPlan::RangeScan {
                            table_name,
                            projection,
                            index_column,
                            min_value,
                            max_value,
                        },
                        None => QueryPlan::FilteredScan { table_name, projection, predicate },
                    },
                }
            },
            QueryPlan::NestedLoopJoin {
                left_input,
                right_input,
                join_type,
                join_condition,
                left_projection,
                right_projection,
            } => {
                let mut indexed_right: Option<String> = None;
                match &*right_input {
                    QueryPlan::TableScan { table_name, .. } => {
                        if is_indexed_column(context, table_name.as_str(), &join_condition.right_column) {
                            indexed_right = Some(table_name.clone());
                        }
                    },
                    _ => {},
                }
                match indexed_right {
                    Some(right_table) => {
                        let right_index_column = join_condition.right_column.clone();
                        QueryPlan::IndexNestedLoopJoin {
                            left_input: Box::new((*left_input).apply_index_optimization(context)),
                            right_table,
                            join_type,
                            join_condition,
                            left_projection,
                            right_projection,
                            right_index_column,
                        }
                    },
                    None => QueryPlan::NestedLoopJoin {
                        left_input: Box::new((*left_input).apply_index_optimization(context)),
                        right_input: Box::new((*right_input).apply_index_optimization(context)),
                        join_type,
                        join_condition,
                        left_projection,
                        right_projection,
                    },
                }
            },
            other => other,
        }
    }
}

/// Whether the join costs of two tables of `l` and `r` rows can be computed: the product and
/// the sum of the row counts fit in `usize`.
pub open spec fn rows_fit(l: usize, r: usize) -> bool {
    l * r <= usize::MAX && l + r <= usize::MAX
}

/// Whether `stats` has statistics for both tables.
pub open spec fn both_known(stats: Map<Seq<char>, TableStatistics>, left: Seq<char>, right: Seq<char>) -> bool {
    stats.contains_key(left) && stats.contains_key(right)
}

/// Whether the statistics of `right` index the join's right column.
pub open spec fn join_index_usable(stats: Map<Seq<char>, TableStatistics>, right: Seq<char>, join_condition: JoinCondition) -> bool {
    stats[right].column_stats@.contains_key(join_condition.right_column@)
        && stats[right].column_stats@[join_condition.right_column@].is_indexed
}

/// Whether a nested loop join (cost `l * r`) is among the cheapest: no dearer than a hash join
/// (`1.5 * (l + r)`) nor, where usable, an index nested loop join (`2 * l`). It wins ties.
pub open spec fn nested_loop_cheapest(l: int, r: int, index_usable: bool) -> bool {
    2 * (l * r) <= 3 * (l + r) && (index_usable ==> 2 * (l * r) <= 4 * l)
}

/// Whether a hash join is the first of the cheapest: the nested loop join is dearer, and a
/// usable index nested loop join is no cheaper.
pub open spec fn hash_cheapest(l: int, r: int, index_usable: bool) -> bool {
    !nested_loop_cheapest(l, r, index_usable) && (index_usable ==> 3 * (l + r) <= 4 * l)
}

/// Whether the cost model can price the joins that join selection looks at in `p`: a nested
/// loop join of two single tables with statistics, or, for other nested loop joins, those of
/// their inputs.
pub open spec fn join_costs_fit(p: QueryPlan, stats: Map<Seq<char>, TableStatistics>) -> bool
    decreases p,
{
    match p {
        QueryPlan::NestedLoopJoin { left_input, right_input, .. } => {
            let lt = plan_tables(*left_input);
            let rt = plan_tables(*right_input);
            if lt.len() == 1 && rt.len() == 1 && both_known(stats, lt[0]@, rt[0]@) {
                rows_fit(stats[lt[0]@].row_count, stats[rt[0]@].row_count)
            } else {
                join_costs_fit(*left_input, stats) && join_costs_fit(*right_input, stats)
            }
        },
        _ => true,
    }
}

/// The plan after cost-based join selection. A nested loop join of two single tables with
/// statistics becomes the cheapest way to join them: it stays a nested loop join, or becomes a
/// hash join that builds from the left input when its table's name comes first, or an index
/// nested loop join on the right table's join column. Other nested loop joins pass the
/// selection on to their inputs; everything else stays.
pub open spec fn reordered(p: QueryPlan, stats: Map<Seq<char>, TableStatistics>) -> QueryPlan
    decreases p,
{
    match p {
        QueryPlan::NestedLoopJoin {
            left_input,
            right_input,
            join_type,
            join_condition,
            left_projection,
            right_projection,
        } => {
            let lt = plan_tables(*left_input);
            let rt = plan_tables(*right_input);
            if lt.len() == 1 && rt.len() == 1 && both_known(stats, lt[0]@, rt[0]@) {
                let l = stats[lt[0]@].row_count as int;
                let r = stats[rt[0]@].row_count as int;
                let usable = join_index_usable(stats, rt[0]@, join_condition);
                if nested_loop_cheapest(l, r, usable) {
                    p
                } else if hash_cheapest(l, r, usable) {
                    QueryPlan::HashJoin {
                        left_input,
                        right_input,
                        join_type,
                        join_condition,
                        left_projection,
                        right_projection,
                        build_side: if text_before(lt[0]@, rt[0]@) {
                            BuildSide::Left
                        } else {
                            BuildSide::Right
                        },
                    }
                } else {
                    QueryPlan::IndexNestedLoopJoin {
                        left_input,
                        right_table: rt[0],
                        join_type,
                        join_condition,
                        left_projection,
                        right_projection,
                        right_index_column: join_condition.right_column,
                    }
                }
            } else {
                QueryPlan::NestedLoopJoin {
                    left_input: Box::new(reordered(*left_input, stats)),
                    right_input: Box::new(reordered(*right_input, stats)),
                    join_type,
                    join_condition,
                    left_projection,
                    right_projection,
                }
            }
        },
        _ => p,
    }
}

/// Whether `c` joins `left` and `right` by `method`, at (doubled) cost `cost`, giving about
/// `cardinality` rows.
pub open spec fn candidate_is(
    c: JoinOrderCandidate,
    left: Seq<char>,
    right: Seq<char>,
    method: JoinMethod,
    cost: int,
    cardinality: int,
) -> bool {
    &&& c.left_table@ == left
    &&& c.right_table@ == right
    &&& c.join_method == method
    &&& c.estimated_cost == cost
    &&& c.estimated_cardinality == cardinality
}

/// The candidates for joining tables of `l` and `r` rows, in order: nested loop, hash join,
/// index nested loop on `column` where usable, and hash join with the inputs swapped.
pub open spec fn join_candidates(
    cs: Seq<JoinOrderCandidate>,
    left: Seq<char>,
    right: Seq<char>,
    l: int,
    r: int,
    index_usable: bool,
    column: String,
) -> bool {
    let n = if index_usable { 4int } else { 3int };
    &&& cs.len() == n
    &&& candidate_is(cs[0], left, right, JoinMethod::NestedLoop, 2 * (l * r), (l * r) / 10)
    &&& candidate_is(cs[1], left, right, JoinMethod::HashJoin, 3 * (l + r), (l * r) / 10)
    &&& index_usable ==> candidate_is(
        cs[2],
        left,
        right,
        JoinMethod::IndexNestedLoop { index_column: column },
        4 * l,
        l,
    )
    &&& candidate_is(cs[n - 1], right, left, JoinMethod::HashJoin, 3 * (l + r), (l * r) / 10)
}

/// Whether `i` is the first of the cheapest candidates.
pub open spec fn first_cheapest(cs: Seq<JoinOrderCandidate>, i: int) -> bool {
    &&& 0 <= i < cs.len()
    &&& forall|j: int| 0 <= j < cs.len() ==> cs[i].estimated_cost <= #[trigger] cs[j].estimated_cost
    &&& forall|j: int| 0 <= j < i ==> #[trigger] cs[j].estimated_cost > cs[i].estimated_cost
}

impl QueryPlan {
    /// The ways to join the two tables, priced by their statistics; none when either table has
    /// no statistics.
    fn generate_join_candidates(
        left_table: &str,
        right_table: &str,
        join_condition: &JoinCondition,
        context: &OptimizationContext,
    ) -> (r: Vec<JoinOrderCandidate>)
        requires
            context.wf(),
            both_known(context.table_stats@, left_table@, right_table@) ==> rows_fit(
                context.table_stats@[left_table@].row_count,
                context.table_stats@[right_table@].row_count,
            ),
        ensures
            !both_known(context.table_stats@, left_table@, right_table@) ==> r@.len() == 0,
            both_known(context.table_stats@, left_table@, right_table@) ==> join_candidates(
                r@,
                left_table@,
                right_table@,
                context.table_stats@[left_table@].row_count as int,
                context.table_stats@[right_table@].row_count as int,
                join_index_usable(context.table_stats@, right_table@, *join_condition),
                join_condition.right_column,
            ),
    {
        let mut candidates: Vec<JoinOrderCandidate> = Vec::new();
        let left_stats = context.table_stats.get(left_table);
        let right_stats = context.table_stats.get(right_table);
        match (left_stats, right_stats) {
            (Some(left_stats), Some(right_stats)) => {
                let l = left_stats.row_count;
                let r = right_stats.row_count;
                let product = l * r;
                let sum = l + r;
                let cardinality = product / 10;
                let hash_cost = 3 * (sum as u128);
                candidates.push(
                    JoinOrderCandidate {
                        left_table: left_table.to_owned(),
                        right_table: right_table.to_owned(),
                        join_method: JoinMethod::NestedLoop,
                        estimated_cost: 2 * (product as u128),
                        estimated_cardinality: cardinality,
                    },
                );
                candidates.push(
                    JoinOrderCandidate {
                        left_table: left_table.to_owned(),
                        right_table: right_table.to_owned(),
                        join_method: JoinMethod::HashJoin,
                        estimated_cost: hash_cost,
                        estimated_cardinality: cardinality,
                    },
                );
                match right_stats.column_stats.get(join_condition.right_column.as_str()) {
                    Some(column_stats) => {
                        if column_stats.is_indexed {
                            candidates.push(
                                JoinOrderCandidate {
                                    left_table: left_table.to_owned(),
                                    right_table: right_table.to_owned(),
                                    join_method: JoinMethod::IndexNestedLoop {
                                        index_column: join_condition.right_column.clone(),
                                    },
                                    estimated_cost: 4 * (l as u128),
                                    estimated_cardinality: l,
                                },
                            );
                        }
                    },
                    None => {},
                }
                candidates.push(
                    JoinOrderCandidate {
                        left_table: right_table.to_owned(),
                        right_table: left_table.to_owned(),
                        join_method: JoinMethod::HashJoin,
                        estimated_cost: hash_cost,
                        estimated_cardinality: cardinality,
                    },
                );
            },
            _ => {},
        }
        candidates
    }

    /// The first of the cheapest candidates, if there is any.
    fn select_best_join_candidate(candidates: Vec<JoinOrderCandidate>, context: &OptimizationContext) -> (r: Option<
        JoinOrderCandidate,
    >)
        ensures
            r is None <==> candidates@.len() == 0,
            r matches Some(c) ==> exists|i: int| first_cheapest(candidates@, i) && c == candidates@[i],
    {
        if candidates.len() == 0 {
            return None;
        }
        let mut best: usize = 0;
        let mut i: usize = 1;
        while i < candidates.len()
            invariant
                1 <= i <= candidates@.len(),
                best < i,
                forall|j: int| 0 <= j < i ==> candidates@[best as int].estimated_cost <= #[trigger] candidates@[j].estimated_cost,
                forall|j: int| 0 <= j < best ==> #[trigger] candidates@[j].estimated_cost > candidates@[best as int].estimated_cost,
            decreases candidates@.len() - i,
        {
            if candidates[i].estimated_cost < candidates[best].estimated_cost {
                best = i;
            }
            i = i + 1;
        }
        let ghost all = candidates@;
        let mut candidates = candidates;
        let chosen = candidates.remove(best);
        assert(first_cheapest(all, best as int));
        Some(chosen)
    }

    /// The join plan for the chosen candidate: a hash join that builds from the left input when
    /// the candidate's left table comes first by name, an index nested loop join into the first
    /// table of the right input, or the nested loop join as it is.
    fn create_optimized_join_plan(
        left_input: Box<QueryPlan>,
        right_input: Box<QueryPlan>,
        join_type: crate::query::JoinType,
        join_condition: JoinCondition,
        left_projection: Vec<crate::query::FieldProjection>,
        right_projection: Vec<crate::query::FieldProjection>,
        candidate: JoinOrderCandidate,
    ) -> (r: QueryPlan)
        ensures
            match candidate.join_method {
                JoinMethod::HashJoin => r == QueryPlan::HashJoin {
                    left_input,
                    right_input,
                    join_type,
                    join_condition,
                    left_projection,
                    right_projection,
                    build_side: if text_before(candidate.left_table@, candidate.right_table@) {
                        BuildSide::Left
                    } else {
                        BuildSide::Right
                    },
                },
                JoinMethod::IndexNestedLoop { index_column } => r matches QueryPlan::IndexNestedLoopJoin {
                    left_input: a,
                    right_table: t,
                    join_type: b,
                    join_condition: c,
                    left_projection: d,
                    right_projection: e,
                    right_index_column: f,
                } && a == left_input && b == join_type && c == join_condition && d == left_projection
                    && e == right_projection && f == index_column && (plan_tables(*right_input).len() > 0
                    ==> t == plan_tables(*right_input)[0]) && (plan_tables(*right_input).len() == 0
                    ==> t@ == "unknown"@),
                _ => r == QueryPlan::NestedLoopJoin {
                    left_input,
                    right_input,
                    join_type,
                    join_condition,
                    left_projection,
                    right_projection,
                },
            },
    {
        match candidate.join_method {
            JoinMethod::HashJoin => {
                let build_side = if text_less(candidate.left_table.as_str(), candidate.right_table.as_str()) {
                    BuildSide::Left
                } else {
                    BuildSide::Right
                };
                QueryPlan::HashJoin {
                    left_input,
                    right_input,
                    join_type,
                    join_condition,
                    left_projection,
                    right_projection,
                    build_side,
                }
            },
            JoinMethod::IndexNestedLoop { index_column } => {
                let names = QueryPlan::extract_table_names(&*right_input);
                let right_table = if names.len() > 0 {
                    names[0].clone()
                } else {
                    "unknown".to_owned()
                };
                QueryPlan::IndexNestedLoopJoin {
                    left_input,
                    right_table,
                    join_type,
                    join_condition,
                    left_projection,
                    right_projection,
                    right_index_column: index_column,
                }
            },
            _ => QueryPlan::NestedLoopJoin {
                left_input,
                right_input,
                join_type,
                join_condition,
                left_projection,
                right_projection,
            },
        }
    }

    /// Cost-based join selection: each nested loop join of two single tables with statistics
    /// becomes the cheapest way to join them; other nested loop joins pass the selection on.
    fn apply_dynamic_join_reordering(self, context: &OptimizationContext) -> (r: QueryPlan)
        requires
            context.wf(),
            join_costs_fit(self, context.table_stats@),
        ensures
            r == reordered(self, context.table_stats@),
        decreases self,
    {
        let ghost p = self;
        let ghost stats = context.table_stats@;
        match self {
            QueryPlan::NestedLoopJoin {
                left_input,
                right_input,
                join_type,
                join_condition,
                left_projection,
                right_projection,
            } => {
                let left_tables = QueryPlan::extract_table_names(&*left_input);
                let right_tables = QueryPlan::extract_table_names(&*right_input);
                if left_tables.len() == 1 && right_tables.len() == 1 {
                    let ghost lt = left_tables@[0]@;
                    let ghost rt = right_tables@[0]@;
                    let candidates = QueryPlan::generate_join_candidates(
                        left_tables[0].as_str(),
                        right_tables[0].as_str(),
                        &join_condition,
                        context,
                    );
                    let ghost cs = candidates@;
                    match QueryPlan::select_best_join_candidate(candidates, context) {
                        Some(best) => {
                            proof {
                                let i = choose|i: int| first_cheapest(cs, i) && best == cs[i];
                                let l = stats[lt].row_count as int;
                                let r = stats[rt].row_count as int;
                                let usable = join_index_usable(stats, rt, join_condition);
                                let n = if usable { 4int } else { 3int };
                                assert(cs[0].estimated_cost == 2 * (l * r));
                                assert(cs[1].estimated_cost == 3 * (l + r));
                                assert(cs[n - 1].estimated_cost == 3 * (l + r));
                                if i == n - 1 {
                                    assert(cs[1].estimated_cost > cs[i].estimated_cost);
                                }
                                if i == 0 {
                                    assert(cs[0].estimated_cost <= cs[1].estimated_cost);
                                    if usable {
                                        assert(cs[0].estimated_cost <= cs[2].estimated_cost);
                                    }
                                    assert(nested_loop_cheapest(l, r, usable));
                                } else if i == 1 {
                                    assert(cs[0].estimated_cost > cs[1].estimated_cost);
                                    if usable {
                                        assert(cs[1].estimated_cost <= cs[2].estimated_cost);
                                    }
                                    assert(hash_cheapest(l, r, usable));
                                } else {
                                    assert(usable && i == 2);
                                    assert(cs[0].estimated_cost > cs[2].estimated_cost);
                                    assert(cs[1].estimated_cost > cs[2].estimated_cost);
                                    assert(!nested_loop_cheapest(l, r, usable));
                                    assert(!hash_cheapest(l, r, usable));
                                }
                            }
                            return QueryPlan::create_optimized_join_plan(
                                left_input,
                                right_input,
                                join_type,
                                join_condition,
                                left_projection,
                                right_projection,
                                best,
                            );
                        },
                        None => {},
                    }
                }
                QueryPlan::NestedLoopJoin {
                    left_input: Box::new((*left_input).apply_dynamic_join_reordering(context)),
                    right_input: Box::new((*right_input).apply_dynamic_join_reordering(context)),
                    join_type,
                    join_condition,
                    left_projection,
                    right_projection,
                }
            },
            other => other,
        }
    }
}

/// Whether `a` copies `b`: the same column and alias, and a copy of the computed value where
/// `b` has one.
pub open spec fn projection_copy(a: FieldProjection, b: FieldProjection) -> bool {
    &&& a.source_column == b.source_column
    &&& a.alias == b.alias
    &&& match b.transformation {
        Some(e) => a.transformation matches Some(x) && expr_copied(e, x),
        None => a.transformation is None,
    }
}

/// Whether each projection of `a` copies the one of `b` at its position.
pub open spec fn projections_copy(a: Seq<FieldProjection>, b: Seq<FieldProjection>) -> bool {
    &&& a.len() == b.len()
    &&& forall|i: int| 0 <= i < a.len() ==> projection_copy(#[trigger] a[i], b[i])
}

/// Whether some projection reads `column`.
pub open spec fn reads_column(projection: Seq<FieldProjection>, column: Seq<char>) -> bool {
    exists|i: int| 0 <= i < projection.len() && (#[trigger] projection[i]).source_column@ == column
}

/// Whether `s` is what the scan below a join reads: a copy of `projection`, followed by the
/// join column when no projection reads it.
pub open spec fn scan_projection(s: Seq<FieldProjection>, projection: Seq<FieldProjection>, column: String) -> bool {
    if reads_column(projection, column@) {
        projections_copy(s, projection)
    } else {
        &&& s.len() == projection.len() + 1
        &&& projections_copy(s.take(projection.len() as int), projection)
        &&& s.last().source_column == column
        &&& s.last().alias is None
        &&& s.last().transformation is None
    }
}

/// The logical plan of a select: a scan of the table, under a filter when there is a predicate.
pub open spec fn logical_select_of(
    table_name: String,
    projection: Vec<FieldProjection>,
    where_clause: Option<Expression>,
) -> QueryPlan {
    match where_clause {
        Some(predicate) => QueryPlan::Filter {
            input: Box::new(QueryPlan::TableScan { table_name, projection }),
            predicate,
        },
        None => QueryPlan::TableScan { table_name, projection },
    }
}

/// Whether `r` is the logical plan of a join: a nested loop join of scans of the two tables,
/// each scan reading its side's projection and the join column.
pub open spec fn logical_join_of(
    left_table: String,
    right_table: String,
    join_type: JoinType,
    join_condition: JoinCondition,
    left_projection: Vec<FieldProjection>,
    right_projection: Vec<FieldProjection>,
    r: QueryPlan,
) -> bool {
    match r {
        QueryPlan::NestedLoopJoin {
            left_input: li,
            right_input: ri,
            join_type: a,
            join_condition: b,
            left_projection: c,
            right_projection: d,
        } => {
            &&& a == join_type
            &&& b == join_condition
            &&& c == left_projection
            &&& d == right_projection
            &&& match *li {
                QueryPlan::TableScan { table_name: lt, projection: lp } => lt == left_table && scan_projection(
                    lp@,
                    left_projection@,
                    join_condition.left_column,
                ),
                _ => false,
            }
            &&& match *ri {
                QueryPlan::TableScan { table_name: rt, projection: rp } => rt == right_table && scan_projection(
                    rp@,
                    right_projection@,
                    join_condition.right_column,
                ),
                _ => false,
            }
        },
        _ => false,
    }
}

/// Predicate analysis, when the context runs it.
pub open spec fn analysed_step(p: QueryPlan, a: QueryPlan, context: OptimizationContext) -> bool {
    if context.enable_complex_predicate_analysis {
        analysed(p, a, context.table_stats@)
    } else {
        a == p
    }
}

/// Predicate pushdown, when the context runs it.
pub open spec fn pushdown_step(p: QueryPlan, context: OptimizationContext) -> QueryPlan {
    if context.enable_predicate_pushdown {
        pushed_down(p)
    } else {
        p
    }
}

/// Index selection, when the context runs it.
pub open spec fn index_step(p: QueryPlan, c: QueryPlan, context: OptimizationContext) -> bool {
    if context.enable_index_optimization {
        index_optimized(p, c, context.table_stats@)
    } else {
        c == p
    }
}

/// Join selection, when the context runs it.
pub open spec fn reorder_step(p: QueryPlan, context: OptimizationContext) -> QueryPlan {
    if context.enable_join_reordering {
        reordered(p, context.table_stats@)
    } else {
        p
    }
}

/// Whether `r` is `p` after the passes that the context runs, in order: predicate analysis,
/// predicate pushdown, index selection, join selection.
pub open spec fn passes_apply(p: QueryPlan, r: QueryPlan, context: OptimizationContext) -> bool {
    exists|a: QueryPlan, c: QueryPlan|
        #![trigger analysed_step(p, a, context), index_step(pushdown_step(a, context), c, context)]
        analysed_step(p, a, context) && index_step(pushdown_step(a, context), c, context) && r == reorder_step(
            c,
            context,
        )
}

/// Whether `r` is `p` optimized under `context`: a select or a join is first replaced by its
/// logical plan; then the passes run.
pub open spec fn optimized_with(p: QueryPlan, r: QueryPlan, context: OptimizationContext) -> bool {
    match p {
        QueryPlan::Select { table_name, projection, where_clause, .. } => passes_apply(
            logical_select_of(
                table_name,
                projection,
                match where_clause {
                    Some(c) => Some(c.condition),
                    None => None,
                },
            ),
            r,
            context,
        ),
        QueryPlan::Join {
            left_table,
            right_table,
            join_type,
            join_condition,
            left_projection,
            right_projection,
            ..
        } => exists|l: QueryPlan|
            #![trigger passes_apply(l, r, context)]
            logical_join_of(
                left_table,
                right_table,
                join_type,
                join_condition,
                left_projection,
                right_projection,
                l,
            ) && passes_apply(l, r, context),
        _ => passes_apply(p, r, context),
    }
}

/// Whether the cost model can price the joins that optimizing `p` looks at.
pub open spec fn plan_joins_fit(p: QueryPlan, stats: Map<Seq<char>, TableStatistics>) -> bool {
    match p {
        QueryPlan::Select { .. } => true,
        QueryPlan::Join { left_table, right_table, .. } => both_known(stats, left_table@, right_table@)
            ==> rows_fit(stats[left_table@].row_count, stats[right_table@].row_count),
        _ => join_costs_fit(p, stats),
    }
}

proof fn lemma_analysed_keeps_tables(p: QueryPlan, a: QueryPlan, stats: Map<Seq<char>, TableStatistics>)
    requires
        analysed(p, a, stats),
    ensures
        plan_tables(a) == plan_tables(p),
        join_costs_fit(p, stats) ==> join_costs_fit(a, stats),
    decreases p,
{
    match p {
        QueryPlan::Filter { input, predicate } => match *input {
            QueryPlan::TableScan { table_name, .. } => {
                assert(plan_tables(*input) == seq![table_name]);
            },
            _ => {
                let ri = a->Filter_input;
                lemma_analysed_keeps_tables(*input, *ri, stats);
            },
        },
        QueryPlan::NestedLoopJoin { left_input, right_input, .. } => {
            let rl = a->NestedLoopJoin_left_input;
            let rr = a->NestedLoopJoin_right_input;
            lemma_analysed_keeps_tables(*left_input, *rl, stats);
            lemma_analysed_keeps_tables(*right_input, *rr, stats);
        },
        _ => {},
    }
}

proof fn lemma_pushdown_keeps_tables(p: QueryPlan, stats: Map<Seq<char>, TableStatistics>)
    ensures
        plan_tables(pushed_down(p)) == plan_tables(p),
        join_costs_fit(p, stats) ==> join_costs_fit(pushed_down(p), stats),
    decreases p,
{
    match p {
        QueryPlan::Filter { input, predicate } => match *input {
            QueryPlan::TableScan { table_name, .. } => {
                assert(plan_tables(*input) == seq![table_name]);
            },
            _ => {
                lemma_pushdown_keeps_tables(*input, stats);
            },
        },
        QueryPlan::NestedLoopJoin { left_input, right_input, .. } => {
            lemma_pushdown_keeps_tables(*left_input, stats);
            lemma_pushdown_keeps_tables(*right_input, stats);
        },
        QueryPlan::HashJoin { left_input, right_input, .. } => {
            lemma_pushdown_keeps_tables(*left_input, stats);
            lemma_pushdown_keeps_tables(*right_input, stats);
        },
        _ => {},
    }
}

proof fn lemma_index_keeps_tables(p: QueryPlan, c: QueryPlan, stats: Map<Seq<char>, TableStatistics>)
    requires
        index_optimized(p, c, stats),
    ensures
        plan_tables(c) == plan_tables(p),
        join_costs_fit(p, stats) ==> join_costs_fit(c, stats),
    decreases p,
{
    match p {
        QueryPlan::FilteredScan { table_name, .. } => {
            assert(plan_tables(p) == seq![table_name]);
        },
        QueryPlan::NestedLoopJoin { left_input, right_input, join_condition, .. } => {
            if right_scan_indexed(*right_input, join_condition, stats) {
                let rl = c->IndexNestedLoopJoin_left_input;
                let t = (*right_input)->TableScan_table_name;
                lemma_index_keeps_tables(*left_input, *rl, stats);
                assert(plan_tables(*right_input) == seq![t]);
                assert(plan_tables(*left_input) + seq![t] =~= plan_tables(*left_input).push(t));
            } else {
                let rl = c->NestedLoopJoin_left_input;
                let rr = c->NestedLoopJoin_right_input;
                lemma_index_keeps_tables(*left_input, *rl, stats);
                lemma_index_keeps_tables(*right_input, *rr, stats);
            }
        },
        _ => {},
    }
}

/// A copy of the projection; its computed value, if any, is copied node by node.
fn copy_projection(p: &FieldProjection) -> (r: FieldProjection)
    ensures
        projection_copy(r, *p),
{
    FieldProjection {
        source_column: p.source_column.clone(),
        alias: match &p.alias {
            Some(a) => Some(a.clone()),
            None => None,
        },
        transformation: match &p.transformation {
            Some(e) => Some(copy_expression(e)),
            None => None,
        },
    }
}

/// A copy of each projection.
fn copy_projections(v: &Vec<FieldProjection>) -> (r: Vec<FieldProjection>)
    ensures
        projections_copy(r@, v@),
{
    let mut r: Vec<FieldProjection> = Vec::new();
    let mut i: usize = 0;
    while i < v.len()
        invariant
            i <= v.len(),
            r@.len() == i,
            forall|j: int| 0 <= j < i ==> projection_copy(#[trigger] r@[j], v@[j]),
        decreases v.len() - i,
    {
        r.push(copy_projection(&v[i]));
        i = i + 1;
    }
    r
}

/// What the scan below a join reads: a copy of the side's projection, and the join column
/// after it when no projection reads that column.
fn scan_projection_for(projection: &Vec<FieldProjection>, column: &String) -> (r: Vec<FieldProjection>)
    ensures
        scan_projection(r@, projection@, *column),
{
    let mut r = copy_projections(projection);
    let mut i: usize = 0;
    let mut found = false;
    while i < projection.len()
        invariant
            i <= projection.len(),
            found <==> exists|j: int| 0 <= j < i && (#[trigger] projection@[j]).source_column@ == column@,
        decreases projection.len() - i,
    {
        if projection[i].source_column == *column {
            found = true;
        }
        i = i + 1;
    }
    if !found {
        let ghost before = r@;
        r.push(FieldProjection::column(column.clone()));
        assert(r@.take(projection@.len() as int) =~= before);
    }
    r
}

impl QueryPlan {
    /// A select of `projection` from `table_name`, filtered by `where_clause` if given, not yet
    /// planned.
    pub fn select(table_name: String, projection: Vec<FieldProjection>, where_clause: Option<WhereClause>) -> (r:
        QueryPlan)
        ensures
            r == (QueryPlan::Select {
                table_name,
                projection,
                where_clause,
                optimization: QueryOptimization {
                    predicate_pushdown: false,
                    join_reordering: false,
                    index_optimization: false,
                    complex_predicate_analysis: false,
                },
                physical_plan: None,
            }),
    {
        QueryPlan::Select {
            table_name,
            projection,
            where_clause,
            optimization: QueryOptimization::default(),
            physical_plan: None,
        }
    }

    /// A join of two tables, not yet planned.
    pub fn join(
        left_table: String,
        right_table: String,
        join_type: JoinType,
        join_condition: JoinCondition,
        left_projection: Vec<FieldProjection>,
        right_projection: Vec<FieldProjection>,
    ) -> (r: QueryPlan)
        ensures
            r == (QueryPlan::Join {
                left_table,
                right_table,
                join_type,
                join_condition,
                left_projection,
                right_projection,
                optimization: QueryOptimization {
                    predicate_pushdown: false,
                    join_reordering: false,
                    index_optimization: false,
                    complex_predicate_analysis: false,
                },
                physical_plan: None,
            }),
    {
        QueryPlan::Join {
            left_table,
            right_table,
            join_type,
            join_condition,
            left_projection,
            right_projection,
            optimization: QueryOptimization::default(),
            physical_plan: None,
        }
    }

    /// The logical plan of a select: a scan of the table, under a filter when there is a
    /// predicate.
    pub fn logical_select(table_name: String, projection: Vec<FieldProjection>, where_clause: Option<Expression>) -> (r:
        QueryPlan)
        ensures
            r == logical_select_of(table_name, projection, where_clause),
    {
        let plan = QueryPlan::TableScan { table_name, projection };
        match where_clause {
            Some(predicate) => QueryPlan::Filter { input: Box::new(plan), predicate },
            None => plan,
        }
    }

    /// The logical plan of a join: a nested loop join of scans of the two tables; each scan
    /// reads its side's projection and, when that does not read it, the join column.
    pub fn logical_join(
        left_table: String,
        right_table: String,
        join_type: JoinType,
        join_condition: JoinCondition,
        left_projection: Vec<FieldProjection>,
        right_projection: Vec<FieldProjection>,
    ) -> (r: QueryPlan)
        ensures
            logical_join_of(
                left_table,
                right_table,
                join_type,
                join_condition,
                left_projection,
                right_projection,
                r,
            ),
    {
        let left_scan_projection = scan_projection_for(&left_projection, &join_condition.left_column);
        let right_scan_projection = scan_projection_for(&right_projection, &join_condition.right_column);
        let left_input = QueryPlan::TableScan { table_name: left_table, projection: left_scan_projection };
        let right_input = QueryPlan::TableScan { table_name: right_table, projection: right_scan_projection };
        QueryPlan::NestedLoopJoin {
            left_input: Box::new(left_input),
            right_input: Box::new(right_input),
            join_type,
            join_condition,
            left_projection,
            right_projection,
        }
    }

    /// Runs the passes that the context turns on: predicate analysis, predicate pushdown,
    /// index selection and join selection.
    fn run_passes(self, context: &OptimizationContext) -> (r: QueryPlan)
        requires
            context.wf(),
            join_costs_fit(self, context.table_stats@),
        ensures
            passes_apply(self, r, *context),
    {
        let ghost p = self;
        let ghost stats = context.table_stats@;
        let mut plan = self;
        if context.enable_complex_predicate_analysis {
            plan = plan.apply_complex_predicate_analysis(context);
            proof {
                lemma_analysed_keeps_tables(p, plan, stats);
            }
        }
        let ghost a = plan;
        if context.enable_predicate_pushdown {
            proof {
                lemma_pushdown_keeps_tables(plan, stats);
            }
            plan = plan.apply_predicate_pushdown(context);
        }
        if context.enable_index_optimization {
            let ghost b = plan;
            plan = plan.apply_index_optimization(context);
            proof {
                lemma_index_keeps_tables(b, plan, stats);
            }
        }
        let ghost c = plan;
        if context.enable_join_reordering {
            plan = plan.apply_dynamic_join_reordering(context);
        }
        assert(analysed_step(p, a, *context) && index_step(pushdown_step(a, *context), c, *context));
        plan
    }

    /// The plan optimized under `context`: a select or a join is first replaced by its logical
    /// plan; then the passes that the context turns on run.
    pub fn optimize_with_context(self, context: &OptimizationContext) -> (r: QueryPlan)
        requires
            context.wf(),
            plan_joins_fit(self, context.table_stats@),
        ensures
            optimized_with(self, r, *context),
    {
        let ghost p = self;
        match self {
            QueryPlan::Select { table_name, projection, where_clause, .. } => {
                let predicate = match where_clause {
                    Some(clause) => Some(clause.condition),
                    None => None,
                };
                QueryPlan::logical_select(table_name, projection, predicate).run_passes(context)
            },
            QueryPlan::Join {
                left_table,
                right_table,
                join_type,
                join_condition,
                left_projection,
                right_projection,
                ..
            } => {
                let ghost lt = left_table;
                let ghost rt = right_table;
                let logical = QueryPlan::logical_join(
                    left_table,
                    right_table,
                    join_type,
                    join_condition,
                    left_projection,
                    right_projection,
                );
                let ghost l = logical;
                proof {
                    let li = l->NestedLoopJoin_left_input;
                    let ri = l->NestedLoopJoin_right_input;
                    assert(plan_tables(*li) == seq![lt]);
                    assert(plan_tables(*ri) == seq![rt]);
                    assert(plan_joins_fit(p, context.table_stats@));
                    assert(join_costs_fit(*li, context.table_stats@));
                    assert(join_costs_fit(*ri, context.table_stats@));
                    assert(join_costs_fit(l, context.table_stats@));
                }
                let r = logical.run_passes(context);
                assert(passes_apply(l, r, *context));
                r
            },
            other => other.run_passes(context),
        }
    }
}

proof fn lemma_analysed_without_stats(p: QueryPlan, a: QueryPlan)
    requires
        analysed(p, a, Map::<Seq<char>, TableStatistics>::empty()),
    ensures
        a == p,
    decreases p,
{
    match p {
        QueryPlan::Filter { input, predicate } => match *input {
            QueryPlan::TableScan { .. } => {},
            _ => {
                let ri = a->Filter_input;
                lemma_analysed_without_stats(*input, *ri);
            },
        },
        QueryPlan::NestedLoopJoin { left_input, right_input, .. } => {
            lemma_analysed_without_stats(*left_input, *a->NestedLoopJoin_left_input);
            lemma_analysed_without_stats(*right_input, *a->NestedLoopJoin_right_input);
        },
        _ => {},
    }
}

proof fn lemma_index_without_stats(p: QueryPlan, c: QueryPlan)
    requires
        index_optimized(p, c, Map::<Seq<char>, TableStatistics>::empty()),
    ensures
        c == p,
    decreases p,
{
    match p {
        QueryPlan::NestedLoopJoin { left_input, right_input, .. } => {
            lemma_index_without_stats(*left_input, *c->NestedLoopJoin_left_input);
            lemma_index_without_stats(*right_input, *c->NestedLoopJoin_right_input);
        },
        _ => {},
    }
}

proof fn lemma_reordered_without_stats(p: QueryPlan)
    ensures
        reordered(p, Map::<Seq<char>, TableStatistics>::empty()) == p,
        join_costs_fit(p, Map::<Seq<char>, TableStatistics>::empty()),
    decreases p,
{
    match p {
        QueryPlan::NestedLoopJoin { left_input, right_input, .. } => {
            lemma_reordered_without_stats(*left_input);
            lemma_reordered_without_stats(*right_input);
        },
        _ => {},
    }
}

/// With no statistics, the passes only merge filters into the scans below them.
proof fn lemma_passes_without_stats(p: QueryPlan, r: QueryPlan, context: OptimizationContext)
    requires
        context.table_stats@ == Map::<Seq<char>, TableStatistics>::empty(),
        context.enable_predicate_pushdown,
        passes_apply(p, r, context),
    ensures
        r == pushed_down(p),
{
    let (a, c) = choose|a: QueryPlan, c: QueryPlan|
        analysed_step(p, a, context) && index_step(pushdown_step(a, context), c, context) && r == reorder_step(
            c,
            context,
        );
    if context.enable_complex_predicate_analysis {
        lemma_analysed_without_stats(p, a);
    }
    if context.enable_index_optimization {
        lemma_index_without_stats(pushed_down(a), c);
    }
    lemma_reordered_without_stats(c);
}

/// Whether `l` is the logical plan of a join of copies of the two projections.
pub open spec fn join_of_copies(
    left_table: String,
    right_table: String,
    join_type: JoinType,
    join_condition: JoinCondition,
    left_projection: Vec<FieldProjection>,
    right_projection: Vec<FieldProjection>,
    l: QueryPlan,
) -> bool {
    exists|lp: Vec<FieldProjection>, rp: Vec<FieldProjection>|
        #![trigger logical_join_of(left_table, right_table, join_type, join_condition, lp, rp, l)]
        projections_copy(lp@, left_projection@) && projections_copy(rp@, right_projection@) && logical_join_of(
            left_table,
            right_table,
            join_type,
            join_condition,
            lp,
            rp,
            l,
        )
}

/// Whether some hint asks for an index.
pub open spec fn asks_for_index(hints: Seq<OptimizationHint>) -> bool {
    exists|i: int| 0 <= i < hints.len() && #[trigger] hints[i] is UseIndex
}

/// Whether some hint asks for predicate pushdown.
pub open spec fn asks_for_pushdown(hints: Seq<OptimizationHint>) -> bool {
    exists|i: int| 0 <= i < hints.len() && #[trigger] hints[i] is PredicatePushdown
}

/// Whether `o` records a planning in which every pass ran, predicate pushdown counting when
/// `pushdown` holds and index selection when `index` does.
pub open spec fn planned_with(o: QueryOptimization, pushdown: bool, index: bool) -> bool {
    &&& o.predicate_pushdown == pushdown
    &&& o.index_optimization == index
    &&& o.join_reordering
    &&& o.complex_predicate_analysis
}

/// Whether some hint asks for an index.
fn has_index_hint(hints: &Vec<OptimizationHint>) -> (r: bool)
    ensures
        r == asks_for_index(hints@),
{
    let mut i: usize = 0;
    while i < hints.len()
        invariant
            i <= hints@.len(),
            forall|j: int| 0 <= j < i ==> !(#[trigger] hints@[j] is UseIndex),
        decreases hints@.len() - i,
    {
        match &hints[i] {
            OptimizationHint::UseIndex(_) => {
                assert(hints@[i as int] is UseIndex);
                return true;
            },
            OptimizationHint::PredicatePushdown => {},
        }
        i = i + 1;
    }
    false
}

/// A copy of the join condition.
fn copy_join_condition(c: &JoinCondition) -> (r: JoinCondition)
    ensures
        r == *c,
{
    JoinCondition { left_column: c.left_column.clone(), right_column: c.right_column.clone(), operator: c.operator }
}

/// Whether a table in `stats` has more than 1000 rows.
pub open spec fn has_large_table(stats: Map<Seq<char>, TableStatistics>) -> bool {
    exists|k: Seq<char>| stats.contains_key(k) && #[trigger] stats[k].row_count > 1000
}

/// The plan with each nested loop join turned into a hash join that builds from the right
/// input when `large` holds, recursively through the inputs of the joins.
pub open spec fn hash_upgraded(p: QueryPlan, large: bool) -> QueryPlan
    decreases p,
{
    match p {
        QueryPlan::NestedLoopJoin {
            left_input,
            right_input,
            join_type,
            join_condition,
            left_projection,
            right_projection,
        } => if large {
            QueryPlan::HashJoin {
                left_input: Box::new(hash_upgraded(*left_input, large)),
                right_input: Box::new(hash_upgraded(*right_input, large)),
                join_type,
                join_condition,
                left_projection,
                right_projection,
                build_side: BuildSide::Right,
            }
        } else {
            QueryPlan::NestedLoopJoin {
                left_input: Box::new(hash_upgraded(*left_input, large)),
                right_input: Box::new(hash_upgraded(*right_input, large)),
                join_type,
                join_condition,
                left_projection,
                right_projection,
            }
        },
        _ => p,
    }
}

/// Whether a table of the context has more than 1000 rows.
fn any_large_table(context: &OptimizationContext) -> (r: bool)
    requires
        context.wf(),
    ensures
        r == has_large_table(context.table_stats@),
{
    let stats = &context.table_stats;
    proof {
        stats.lemma_dom();
        assert forall|k: Seq<char>| #[trigger] stats@.contains_key(k) <==> stats.key_seq().contains(k) by {
            assert(stats@.dom().contains(k) == stats.key_seq().to_set().contains(k));
        }
    }
    let mut i: usize = 0;
    while i < stats.entry_count()
        invariant
            context.wf(),
            stats == &context.table_stats,
            i <= stats.key_seq().len(),
            forall|j: int| 0 <= j < i ==> #[trigger] stats@[stats.key_seq()[j]].row_count <= 1000,
            forall|k: Seq<char>| #[trigger] stats@.contains_key(k) <==> stats.key_seq().contains(k),
        decreases stats.key_seq().len() - i,
    {
        let table = stats.value_at(i);
        if table.row_count > 1000 {
            return true;
        }
        i = i + 1;
    }
    proof {
        assert forall|k: Seq<char>| stats@.contains_key(k) implies #[trigger] stats@[k].row_count <= 1000 by {
            let j = choose|j: int| 0 <= j < stats.key_seq().len() && stats.key_seq()[j] == k;
            assert(stats@[stats.key_seq()[j]].row_count <= 1000);
        }
    }
    false
}

impl QueryPlan {
    /// Turns on the passes that the hints ask for.
    fn apply_hints_to_context(context: &mut OptimizationContext, hints: &Vec<OptimizationHint>)
        ensures
            final(context).enable_predicate_pushdown == (old(context).enable_predicate_pushdown
                || asks_for_pushdown(hints@)),
            final(context).enable_index_optimization == (old(context).enable_index_optimization
                || asks_for_index(hints@)),
            final(context).enable_join_reordering == old(context).enable_join_reordering,
            final(context).enable_complex_predicate_analysis == old(context).enable_complex_predicate_analysis,
            final(context).cost_threshold == old(context).cost_threshold,
            final(context).table_stats == old(context).table_stats,
    {
        let mut i: usize = 0;
        while i < hints.len()
            invariant
                i <= hints@.len(),
                context.enable_predicate_pushdown == (old(context).enable_predicate_pushdown || exists|j: int|
                    0 <= j < i && #[trigger] hints@[j] is PredicatePushdown),
                context.enable_index_optimization == (old(context).enable_index_optimization || exists|j: int|
                    0 <= j < i && #[trigger] hints@[j] is UseIndex),
                context.enable_join_reordering == old(context).enable_join_reordering,
                context.enable_complex_predicate_analysis == old(context).enable_complex_predicate_analysis,
                context.cost_threshold == old(context).cost_threshold,
                context.table_stats == old(context).table_stats,
            decreases hints@.len() - i,
        {
            match &hints[i] {
                OptimizationHint::PredicatePushdown => {
                    context.enable_predicate_pushdown = true;
                },
                OptimizationHint::UseIndex(_) => {
                    context.enable_index_optimization = true;
                },
            }
            i = i + 1;
        }
    }

    /// Turns every nested loop join into a hash join building from the right input when some
    /// table has more than 1000 rows, recursively through the inputs of the joins.
    fn apply_join_reordering(self, context: &OptimizationContext) -> (r: QueryPlan)
        requires
            context.wf(),
        ensures
            r == hash_upgraded(self, has_large_table(context.table_stats@)),
        decreases self,
    {
        match self {
            QueryPlan::NestedLoopJoin {
                left_input,
                right_input,
                join_type,
                join_condition,
                left_projection,
                right_projection,
            } => {
                if any_large_table(context) {
                    QueryPlan::HashJoin {
                        left_input: Box::new((*left_input).apply_join_reordering(context)),
                        right_input: Box::new((*right_input).apply_join_reordering(context)),
                        join_type,
                        join_condition,
                        left_projection,
                        right_projection,
                        build_side: BuildSide::Right,
                    }
                } else {
                    QueryPlan::NestedLoopJoin {
                        left_input: Box::new((*left_input).apply_join_reordering(context)),
                        right_input: Box::new((*right_input).apply_join_reordering(context)),
                        join_type,
                        join_condition,
                        left_projection,
                        right_projection,
                    }
                }
            },
            other => other,
        }
    }

    /// Plans the query with no table statistics and every pass on. A select or a join keeps
    /// its fields, records the passes and gets its physical plan: a filtered scan of a copy of
    /// its projection when there is a predicate, else a plain scan, for a select; the nested
    /// loop join of scans of copies of its projections for a join. Any other plan has each
    /// filter that sits directly on a scan merged into the scan.
    pub fn optimize(self) -> (r: QueryPlan)
        ensures
            match self {
                QueryPlan::Select { table_name, projection, where_clause, .. } => r matches QueryPlan::Select {
                    table_name: a,
                    projection: b,
                    where_clause: c,
                    optimization: o,
                    physical_plan: Some(physical),
                } && a == table_name && b == projection && c == where_clause && planned_with(
                    o,
                    where_clause is Some,
                    where_clause matches Some(w) && asks_for_index(w.optimization_hints@),
                ) && match where_clause {
                    Some(w) => (*physical) matches QueryPlan::FilteredScan { table_name: t, projection: q, predicate: x }
                        && t == table_name && projections_copy(q@, projection@) && expr_copied(w.condition, x),
                    None => (*physical) matches QueryPlan::TableScan { table_name: t, projection: q } && t
                        == table_name && projections_copy(q@, projection@),
                },
                QueryPlan::Join {
                    left_table,
                    right_table,
                    join_type,
                    join_condition,
                    left_projection,
                    right_projection,
                    ..
                } => r matches QueryPlan::Join {
                    left_table: a,
                    right_table: b,
                    join_type: c,
                    join_condition: d,
                    left_projection: e,
                    right_projection: f,
                    optimization: o,
                    physical_plan: Some(physical),
                } && a == left_table && b == right_table && c == join_type && d == join_condition && e
                    == left_projection && f == right_projection && planned_with(o, true, true) && join_of_copies(
                    left_table,
                    right_table,
                    join_type,
                    join_condition,
                    left_projection,
                    right_projection,
                    *physical,
                ),
                _ => r == pushed_down(self),
            },
    {
        let ghost p = self;
        match self {
            QueryPlan::Select { table_name, projection, where_clause, optimization, .. } => {
                let mut context = OptimizationContext::default();
                match &where_clause {
                    Some(clause) => QueryPlan::apply_hints_to_context(&mut context, &clause.optimization_hints),
                    None => {},
                }
                let predicate = match &where_clause {
                    Some(clause) => Some(copy_expression(&clause.condition)),
                    None => None,
                };
                let logical = QueryPlan::logical_select(table_name.clone(), copy_projections(&projection), predicate);
                let ghost l = logical;
                proof {
                    lemma_reordered_without_stats(l);
                }
                let physical = logical.optimize_with_context(&context);
                proof {
                    lemma_passes_without_stats(l, physical, context);
                }
                let used_index_hint = match &where_clause {
                    Some(clause) => has_index_hint(&clause.optimization_hints),
                    None => false,
                };
                let mut optimization = optimization;
                optimization.predicate_pushdown = context.enable_predicate_pushdown && where_clause.is_some();
                optimization.index_optimization = context.enable_index_optimization && used_index_hint;
                optimization.join_reordering = context.enable_join_reordering;
                optimization.complex_predicate_analysis = context.enable_complex_predicate_analysis;
                QueryPlan::Select {
                    table_name,
                    projection,
                    where_clause,
                    optimization,
                    physical_plan: Some(Box::new(physical)),
                }
            },
            QueryPlan::Join {
                left_table,
                right_table,
                join_type,
                join_condition,
                left_projection,
                right_projection,
                optimization,
                ..
            } => {
                let context = OptimizationContext::default();
                let left_copy = copy_projections(&left_projection);
                let right_copy = copy_projections(&right_projection);
                let logical = QueryPlan::logical_join(
                    left_table.clone(),
                    right_table.clone(),
                    join_type,
                    copy_join_condition(&join_condition),
                    left_copy,
                    right_copy,
                );
                let ghost l = logical;
                proof {
                    lemma_reordered_without_stats(l);
                }
                let physical = logical.optimize_with_context(&context);
                proof {
                    lemma_passes_without_stats(l, physical, context);
                    lemma_reordered_without_stats(l);
                    let li = l->NestedLoopJoin_left_input;
                    let ri = l->NestedLoopJoin_right_input;
                    assert(pushed_down(*li) == *li);
                    assert(pushed_down(*ri) == *ri);
                    assert(physical == l);
                    assert(logical_join_of(left_table, right_table, join_type, join_condition, left_copy, right_copy, l));
                }
                let mut optimization = optimization;
                optimization.predicate_pushdown = context.enable_predicate_pushdown;
                optimization.index_optimization = context.enable_index_optimization;
                optimization.join_reordering = context.enable_join_reordering;
                optimization.complex_predicate_analysis = context.enable_complex_predicate_analysis;
                QueryPlan::Join {
                    left_table,
                    right_table,
                    join_type,
                    join_condition,
                    left_projection,
                    right_projection,
                    optimization,
                    physical_plan: Some(Box::new(physical)),
                }
            },
            other => {
                let context = OptimizationContext::default();
                let ghost o = other;
                proof {
                    lemma_reordered_without_stats(o);
                }
                let r = other.optimize_with_context(&context);
                proof {
                    lemma_passes_without_stats(o, r, context);
                }
                r
            },
        }
    }
}

} // verus!
