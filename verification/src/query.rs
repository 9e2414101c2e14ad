//! Query plans and the analysis of filter predicates that picks index and range scans.
//!
//! The selectivity estimate of a predicate is kept as the number of `AND` and `OR` nodes that
//! scale it: each `AND` halves it and each `OR` multiplies it by 0.8, starting from 1.
use vstd::prelude::*;

use crate::ast::{BinaryOperator, Expression, Literal, Type};
use crate::names::StrMap;
use crate::table_values::{option_value_view, ColumnValue, ColumnValueView, RowId, TableRow};

verus! {

/// Which optimization passes were applied to a plan.
#[derive(Debug, Clone, Copy, PartialEq, Eq, Structural)]
pub struct QueryOptimization {
    pub predicate_pushdown: bool,
    pub join_reordering: bool,
    pub index_optimization: bool,
    pub complex_predicate_analysis: bool,
}

impl Default for QueryOptimization {
    fn default() -> (r: QueryOptimization)
        ensures
            !r.predicate_pushdown && !r.join_reordering && !r.index_optimization
                && !r.complex_predicate_analysis,
    {
        QueryOptimization {
            predicate_pushdown: false,
            join_reordering: false,
            index_optimization: false,
            complex_predicate_analysis: false,
        }
    }
}

/// A hint that steers planning.
#[derive(Debug, Clone)]
pub enum OptimizationHint {
    PredicatePushdown,
    UseIndex(String),
}

/// A selected column, possibly renamed or computed.
#[derive(Debug)]
pub struct FieldProjection {
    pub source_column: String,
    pub alias: Option<String>,
    pub transformation: Option<Expression>,
}

impl FieldProjection {
    /// The column as it is.
    pub fn column(column_name: String) -> (r: FieldProjection)
        ensures
            r.source_column == column_name,
            r.alias is None,
            r.transformation is None,
    {
        FieldProjection { source_column: column_name, alias: None, transformation: None }
    }

    /// The column under another name.
    pub fn column_as(column_name: String, alias: String) -> (r: FieldProjection)
        ensures
            r.source_column == column_name,
            r.alias == Some(alias),
            r.transformation is None,
    {
        FieldProjection { source_column: column_name, alias: Some(alias), transformation: None }
    }

    /// A value computed by `transformation`, under the column's name.
    pub fn computed(column_name: String, transformation: Expression) -> (r: FieldProjection)
        ensures
            r.source_column == column_name,
            r.alias is None,
            r.transformation == Some(transformation),
    {
        FieldProjection {
            source_column: column_name,
            alias: None,
            transformation: Some(transformation),
        }
    }

    /// The name of the output column: the alias if there is one, else the source column.
    pub fn output_name(&self) -> (r: &str)
        ensures
            r@ == match self.alias {
                Some(a) => a@,
                None => self.source_column@,
            },
    {
        match &self.alias {
            Some(a) => a.as_str(),
            None => self.source_column.as_str(),
        }
    }
}

/// A filter condition with its hints.
#[derive(Debug)]
pub struct WhereClause {
    pub condition: Expression,
    pub optimization_hints: Vec<OptimizationHint>,
}

impl WhereClause {
    /// A condition without hints.
    pub fn new(condition: Expression) -> (r: WhereClause)
        ensures
            r.condition == condition,
            r.optimization_hints@.len() == 0,
    {
        WhereClause { condition, optimization_hints: Vec::new() }
    }

    /// The clause with `hint` added after its other hints.
    pub fn with_hint(self, hint: OptimizationHint) -> (r: WhereClause)
        ensures
            r.condition == self.condition,
            r.optimization_hints@ == self.optimization_hints@.push(hint),
    {
        let mut clause = self;
        clause.optimization_hints.push(hint);
        clause
    }
}

/// Kinds of joins.
#[derive(Debug, Clone, Copy, PartialEq, Eq, Structural)]
pub enum JoinType {
    Inner,
    LeftOuter,
    RightOuter,
    FullOuter,
}

/// The input of a hash join that the hash table is built from.
#[derive(Debug, Clone, Copy, PartialEq, Eq, Structural)]
pub enum BuildSide {
    Left,
    Right,
}

/// The condition that pairs rows of a join.
#[derive(Debug, Clone)]
pub struct JoinCondition {
    pub left_column: String,
    pub right_column: String,
    pub operator: BinaryOperator,
}

impl JoinCondition {
    /// Rows pair when the two columns are equal.
    pub fn eq(left_column: String, right_column: String) -> (r: JoinCondition)
        ensures
            r.left_column == left_column,
            r.right_column == right_column,
            r.operator == BinaryOperator::Equal,
    {
        JoinCondition { left_column, right_column, operator: BinaryOperator::Equal }
    }

    /// Rows pair when `operator` holds between the two columns.
    pub fn new(left_column: String, right_column: String, operator: BinaryOperator) -> (r: JoinCondition)
        ensures
            r.left_column == left_column,
            r.right_column == right_column,
            r.operator == operator,
    {
        JoinCondition { left_column, right_column, operator }
    }
}

/// Statistics of a table, for planning.
#[derive(Debug)]
pub struct TableStatistics {
    pub table_name: String,
    pub row_count: usize,
    pub column_stats: StrMap<ColumnStatistics>,
    pub indexed_columns: Vec<String>,
    pub primary_key_column: Option<String>,
}

/// Statistics of a column, for planning.
#[derive(Debug)]
pub struct ColumnStatistics {
    pub column_name: String,
    pub distinct_count: usize,
    pub null_count: usize,
    pub min_value: Option<ColumnValue>,
    pub max_value: Option<ColumnValue>,
    pub is_indexed: bool,
}

/// An equality on an indexed column that an index lookup can answer.
#[derive(Debug)]
pub struct IndexEligibleTerm {
    pub column_name: String,
    pub operator: BinaryOperator,
    pub value: ColumnValue,
    pub estimated_cardinality: usize,
    pub is_primary_key: bool,
}

/// Bounds on an indexed column that a range scan can answer.
#[derive(Debug)]
pub struct RangeScanTerm {
    pub column_name: String,
    pub min_value: Option<ColumnValue>,
    pub max_value: Option<ColumnValue>,
    pub estimated_cardinality: usize,
}

/// What planning knows and which passes it runs: statistics per table, a switch per pass,
/// and the cost above which a plan counts as expensive, held as the bit pattern of an `f64`.
#[derive(Debug)]
pub struct OptimizationContext {
    pub table_stats: StrMap<TableStatistics>,
    pub enable_predicate_pushdown: bool,
    pub enable_join_reordering: bool,
    pub enable_index_optimization: bool,
    pub enable_complex_predicate_analysis: bool,
    pub cost_threshold: u64,
}

impl OptimizationContext {
    /// Well-formedness: each table, and each column of a table, has its statistics once.
    pub open spec fn wf(&self) -> bool {
        &&& self.table_stats.wf()
        &&& forall|k: Seq<char>| #[trigger] self.table_stats@.contains_key(k)
            ==> self.table_stats@[k].column_stats.wf()
    }
}

impl Default for OptimizationContext {
    /// No statistics, every pass on, and a cost threshold of 1000.
    fn default() -> (r: OptimizationContext)
        ensures
            r.wf(),
            r.table_stats@ == Map::<Seq<char>, TableStatistics>::empty(),
            r.enable_predicate_pushdown,
            r.enable_join_reordering,
            r.enable_index_optimization,
            r.enable_complex_predicate_analysis,
            r.cost_threshold == 0x408F_4000_0000_0000u64,
    {
        OptimizationContext {
            table_stats: StrMap::new(),
            enable_predicate_pushdown: true,
            enable_join_reordering: true,
            enable_index_optimization: true,
            enable_complex_predicate_analysis: true,
            cost_threshold: 0x408F_4000_0000_0000u64,
        }
    }
}

/// A way to execute a join between two tables, with its estimated cost. The cost is kept
/// doubled, so that every estimate of the cost model is a whole number: a nested loop costs
/// `left * right`, a hash join `1.5 * (left + right)`, an index nested loop `2 * left`.
#[derive(Debug)]
pub struct JoinOrderCandidate {
    pub left_table: String,
    pub right_table: String,
    pub join_method: JoinMethod,
    pub estimated_cost: u128,
    pub estimated_cardinality: usize,
}

/// Ways to execute a join.
#[derive(Debug, Clone)]
pub enum JoinMethod {
    NestedLoop,
    HashJoin,
    IndexNestedLoop { index_column: String },
    SortMergeJoin,
}

/// The rows a query returned, their columns and counts of the work done.
#[derive(Debug)]
pub struct QueryResult {
    pub rows: Vec<(RowId, TableRow)>,
    pub schema: Vec<ResultColumn>,
    pub statistics: QueryStatistics,
}

impl QueryResult {
    /// A result of `rows`; the statistics count the rows returned and nothing else.
    pub fn new(rows: Vec<(RowId, TableRow)>, schema: Vec<ResultColumn>) -> (r: QueryResult)
        ensures
            r.rows == rows,
            r.schema == schema,
            r.statistics.rows_scanned == 0,
            r.statistics.rows_filtered == 0,
            r.statistics.rows_returned == rows@.len(),
            r.statistics.index_seeks == 0,
            r.statistics.execution_time_ms == 0,
    {
        let statistics = QueryStatistics {
            rows_scanned: 0,
            rows_filtered: 0,
            rows_returned: rows.len(),
            index_seeks: 0,
            execution_time_ms: 0,
        };
        QueryResult { rows, schema, statistics }
    }

    /// A result without rows.
    pub fn empty(schema: Vec<ResultColumn>) -> (r: QueryResult)
        ensures
            r.rows@.len() == 0,
            r.schema == schema,
            r.statistics.rows_scanned == 0,
            r.statistics.rows_filtered == 0,
            r.statistics.rows_returned == 0,
            r.statistics.index_seeks == 0,
            r.statistics.execution_time_ms == 0,
    {
        QueryResult::new(Vec::new(), schema)
    }

    /// Whether there are no rows.
    pub fn is_empty(&self) -> (r: bool)
        ensures
            r == (self.rows@.len() == 0),
    {
        self.rows.len() == 0
    }

    /// Number of rows.
    pub fn len(&self) -> (r: usize)
        ensures
            r == self.rows@.len(),
    {
        self.rows.len()
    }
}

/// A column of a query result.
#[derive(Debug)]
pub struct ResultColumn {
    pub name: String,
    pub column_type: Type,
    pub source_table: Option<String>,
}

impl ResultColumn {
    pub fn new(name: String, column_type: Type, source_table: Option<String>) -> (r: ResultColumn)
        ensures
            r.name == name,
            r.column_type == column_type,
            r.source_table == source_table,
    {
        ResultColumn { name, column_type, source_table }
    }
}

/// Counts of the work a query did.
#[derive(Debug, Clone, Copy)]
pub struct QueryStatistics {
    pub rows_scanned: usize,
    pub rows_filtered: usize,
    pub rows_returned: usize,
    pub index_seeks: usize,
    pub execution_time_ms: u64,
}

/// Why a query failed.
#[derive(Debug, Clone)]
pub enum QueryError {
    TableNotFound(String),
    ColumnNotFound { table: String, column: String },
    TypeMismatch { expected: String, found: String },
    JoinError(String),
    OptimizationError(String),
    ExecutionError(String),
}

/// The nodes of a query plan.
#[derive(Debug)]
pub enum QueryPlan {
    Select {
        table_name: String,
        projection: Vec<FieldProjection>,
        where_clause: Option<WhereClause>,
        optimization: QueryOptimization,
        physical_plan: Option<Box<QueryPlan>>,
    },
    Join {
        left_table: String,
        right_table: String,
        join_type: JoinType,
        join_condition: JoinCondition,
        left_projection: Vec<FieldProjection>,
        right_projection: Vec<FieldProjection>,
        optimization: QueryOptimization,
        physical_plan: Option<Box<QueryPlan>>,
    },
    TableScan {
        table_name: String,
        projection: Vec<FieldProjection>,
    },
    FilteredScan {
        table_name: String,
        projection: Vec<FieldProjection>,
        predicate: Expression,
    },
    IndexScan {
        table_name: String,
        projection: Vec<FieldProjection>,
        index_column: String,
        index_value: ColumnValue,
    },
    RangeScan {
        table_name: String,
        projection: Vec<FieldProjection>,
        index_column: String,
        min_value: Option<ColumnValue>,
        max_value: Option<ColumnValue>,
    },
    NestedLoopJoin {
        left_input: Box<QueryPlan>,
        right_input: Box<QueryPlan>,
        join_type: JoinType,
        join_condition: JoinCondition,
        left_projection: Vec<FieldProjection>,
        right_projection: Vec<FieldProjection>,
    },
    HashJoin {
        left_input: Box<QueryPlan>,
        right_input: Box<QueryPlan>,
        join_type: JoinType,
        join_condition: JoinCondition,
        left_projection: Vec<FieldProjection>,
        right_projection: Vec<FieldProjection>,
        build_side: BuildSide,
    },
    IndexNestedLoopJoin {
        left_input: Box<QueryPlan>,
        right_table: String,
        join_type: JoinType,
        join_condition: JoinCondition,
        left_projection: Vec<FieldProjection>,
        right_projection: Vec<FieldProjection>,
        right_index_column: String,
    },
    Projection {
        input: Box<QueryPlan>,
        projection: Vec<FieldProjection>,
    },
    Filter {
        input: Box<QueryPlan>,
        predicate: Expression,
    },
}

/// The column value a literal stands for: an integer keeps its low 64 bits, a character
/// becomes a one-character string.
pub open spec fn literal_view(lit: Literal) -> ColumnValueView {
    match lit {
        Literal::Boolean(b) => ColumnValueView::Bool(b),
        Literal::Integer(i) => ColumnValueView::U64(i.value as u64),
        Literal::Float(bits) => ColumnValueView::F64(bits),
        Literal::String(s) => ColumnValueView::Text(s@),
        Literal::Char(c) => ColumnValueView::Text(seq![c]),
    }
}

/// The column value of a literal; every literal has one.
pub fn literal_to_column_value(literal: &Literal) -> (r: Result<ColumnValue, String>)
    ensures
        r matches Ok(v) && v@ == literal_view(*literal),
{
    match literal {
        Literal::Boolean(b) => Ok(ColumnValue::Bool(*b)),
        Literal::Integer(int_lit) => Ok(ColumnValue::U64(int_lit.value as u64)),
        Literal::Float(bits) => Ok(ColumnValue::F64(*bits)),
        Literal::String(s) => Ok(ColumnValue::String(s.clone())),
        Literal::Char(c) => {
            let mut chars: Vec<char> = Vec::new();
            chars.push(*c);
            let text = crate::text::string_of(&chars);
            assert(chars@ =~= seq![*c]);
            Ok(ColumnValue::String(text))
        },
    }
}

/// What an index term stands for: column, operator, value, cardinality, primary key.
pub open spec fn index_term_view(t: IndexEligibleTerm) -> (Seq<char>, BinaryOperator, ColumnValueView, usize, bool) {
    (t.column_name@, t.operator, t.value@, t.estimated_cardinality, t.is_primary_key)
}

/// What a range term stands for: column, lower bound, upper bound, cardinality.
pub open spec fn range_term_view(t: RangeScanTerm) -> (Seq<char>, Option<ColumnValueView>, Option<ColumnValueView>, usize) {
    (t.column_name@, option_value_view(t.min_value), option_value_view(t.max_value), t.estimated_cardinality)
}

pub open spec fn index_views(s: Seq<IndexEligibleTerm>) -> Seq<(Seq<char>, BinaryOperator, ColumnValueView, usize, bool)> {
    s.map_values(|t: IndexEligibleTerm| index_term_view(t))
}

pub open spec fn range_views(s: Seq<RangeScanTerm>) -> Seq<(Seq<char>, Option<ColumnValueView>, Option<ColumnValueView>, usize)> {
    s.map_values(|t: RangeScanTerm| range_term_view(t))
}

/// The expressions behind a sequence of references.
pub open spec fn expressions_of<'a>(s: Seq<&'a Expression>) -> Seq<Expression> {
    s.map_values(|e: &'a Expression| *e)
}

/// `x + 1`, staying at the largest `u64`.
pub open spec fn count_up(x: u64) -> u64 {
    if x < u64::MAX {
        (x + 1) as u64
    } else {
        x
    }
}

/// The statistics of column `name`, if the table has an index on it.
pub open spec fn indexed_column(stats: TableStatistics, name: Seq<char>) -> Option<ColumnStatistics> {
    if stats.column_stats@.contains_key(name) && stats.column_stats@[name].is_indexed {
        Some(stats.column_stats@[name])
    } else {
        None
    }
}

/// Whether the comparison bounds the column from above.
pub open spec fn is_upper_bound(op: BinaryOperator) -> bool {
    op == BinaryOperator::Less || op == BinaryOperator::LessEqual
}

/// Whether the comparison is one a range scan can answer.
pub open spec fn is_range_comparison(op: BinaryOperator) -> bool {
    op == BinaryOperator::Less || op == BinaryOperator::LessEqual || op == BinaryOperator::Greater
        || op == BinaryOperator::GreaterEqual
}

/// Position of the first range term on column `name`, or the number of terms if none.
pub open spec fn range_position(terms: Seq<(Seq<char>, Option<ColumnValueView>, Option<ColumnValueView>, usize)>, name: Seq<char>) -> int
    decreases terms.len(),
{
    if terms.len() == 0 {
        0
    } else if terms[0].0 == name {
        0
    } else {
        1 + range_position(terms.drop_first(), name)
    }
}

/// Records the bound `op v` on column `name`: the first term on that column takes it as its
/// upper or lower bound; without such a term a new one is added, with a third of the rows as
/// its cardinality.
pub open spec fn merge_range(
    terms: Seq<(Seq<char>, Option<ColumnValueView>, Option<ColumnValueView>, usize)>,
    name: Seq<char>,
    op: BinaryOperator,
    v: ColumnValueView,
    row_count: usize,
) -> Seq<(Seq<char>, Option<ColumnValueView>, Option<ColumnValueView>, usize)> {
    let k = range_position(terms, name);
    if k < terms.len() {
        let t = terms[k];
        if is_upper_bound(op) {
            terms.update(k, (t.0, t.1, Some(v), t.3))
        } else {
            terms.update(k, (t.0, Some(v), t.2, t.3))
        }
    } else if is_upper_bound(op) {
        terms.push((name, None, Some(v), (row_count / 3) as usize))
    } else {
        terms.push((name, Some(v), None, (row_count / 3) as usize))
    }
}

/// The index terms, range terms, remaining filter terms and `AND` and `OR` counts after the
/// analysis of `e`, from the state `st`. An `AND` is analysed side by side; an equality or
/// range comparison between an indexed column and a literal becomes an index or range term;
/// anything else is kept whole as a filter term.
pub open spec fn analyze_terms(
    e: Expression,
    stats: TableStatistics,
    st: (Seq<(Seq<char>, BinaryOperator, ColumnValueView, usize, bool)>, Seq<(Seq<char>, Option<ColumnValueView>, Option<ColumnValueView>, usize)>, Seq<Expression>, u64, u64),
) -> (Seq<(Seq<char>, BinaryOperator, ColumnValueView, usize, bool)>, Seq<(Seq<char>, Option<ColumnValueView>, Option<ColumnValueView>, usize)>, Seq<Expression>, u64, u64)
    decreases e,
{
    let kept = (st.0, st.1, st.2.push(e), st.3, st.4);
    match e {
        Expression::BinaryOp { left, operator, right } => {
            if operator == BinaryOperator::And {
                let after_left = analyze_terms(*left, stats, st);
                let after_right = analyze_terms(*right, stats, after_left);
                (after_right.0, after_right.1, after_right.2, count_up(after_right.3), after_right.4)
            } else if operator == BinaryOperator::Or {
                (st.0, st.1, st.2.push(e), st.3, count_up(st.4))
            } else if operator == BinaryOperator::Equal || is_range_comparison(operator) {
                match (*left, *right) {
                    (Expression::Identifier(name), Expression::Literal(lit)) => match indexed_column(stats, name@) {
                        Some(cs) => if operator == BinaryOperator::Equal {
                            let card: usize = if cs.distinct_count > 0 {
                                (stats.row_count / cs.distinct_count) as usize
                            } else {
                                1
                            };
                            let is_pk = stats.primary_key_column matches Some(pk) && pk@ == name@;
                            (st.0.push((name@, operator, literal_view(lit), card, is_pk)), st.1, st.2, st.3, st.4)
                        } else {
                            (st.0, merge_range(st.1, name@, operator, literal_view(lit), stats.row_count), st.2, st.3, st.4)
                        },
                        None => kept,
                    },
                    _ => kept,
                }
            } else {
                kept
            }
        },
        _ => kept,
    }
}

/// The running count of the `AND` and `OR` nodes that scale a predicate's selectivity.
#[derive(Debug, Clone, Copy)]
pub struct SelectivityFactors {
    pub and_factors: u64,
    pub or_factors: u64,
}

fn find_range_term(range_terms: &Vec<RangeScanTerm>, name: &String) -> (r: usize)
    ensures
        r == range_position(range_views(range_terms@), name@),
        r <= range_terms@.len(),
{
    let ghost views = range_views(range_terms@);
    let mut i: usize = 0;
    assert(views.skip(0) =~= views);
    while i < range_terms.len()
        invariant
            views == range_views(range_terms@),
            i <= range_terms@.len(),
            range_position(views, name@) == i + range_position(views.skip(i as int), name@),
        decreases range_terms@.len() - i,
    {
        if range_terms[i].column_name == *name {
            assert(views.skip(i as int)[0] == views[i as int]);
            return i;
        }
        assert(views.skip(i as int).drop_first() =~= views.skip(i + 1));
        i = i + 1;
    }
    assert(views.skip(i as int) =~= Seq::<(Seq<char>, Option<ColumnValueView>, Option<ColumnValueView>, usize)>::empty());
    i
}

/// Splits `expr` into index terms, range terms and remaining filter terms, and counts the
/// `AND` and `OR` nodes that scale its selectivity.
pub fn extract_index_eligible_terms<'a>(
    expr: &'a Expression,
    table_stats: &TableStatistics,
    index_terms: &mut Vec<IndexEligibleTerm>,
    range_terms: &mut Vec<RangeScanTerm>,
    bitmap_terms: &mut Vec<&'a Expression>,
    factors: &mut SelectivityFactors,
)
    requires
        table_stats.column_stats.wf(),
    ensures
        (index_views(final(index_terms)@), range_views(final(range_terms)@), expressions_of(
            final(bitmap_terms)@,
        ), final(factors).and_factors, final(factors).or_factors) == analyze_terms(
            *expr,
            *table_stats,
            (index_views(old(index_terms)@), range_views(old(range_terms)@), expressions_of(
                old(bitmap_terms)@,
            ), old(factors).and_factors, old(factors).or_factors),
        ),
    decreases expr,
{
    let ghost before = (index_views(index_terms@), range_views(range_terms@), expressions_of(bitmap_terms@), factors.and_factors, factors.or_factors);
    match expr {
        Expression::BinaryOp { left, operator, right } => {
            if *operator == BinaryOperator::And {
                extract_index_eligible_terms(left, table_stats, index_terms, range_terms, bitmap_terms, factors);
                extract_index_eligible_terms(right, table_stats, index_terms, range_terms, bitmap_terms, factors);
                factors.and_factors = if factors.and_factors < u64::MAX { factors.and_factors + 1 } else { factors.and_factors };
                return;
            } else if *operator == BinaryOperator::Or {
                bitmap_terms.push(expr);
                assert(expressions_of(bitmap_terms@) =~= before.2.push(*expr));
                factors.or_factors = if factors.or_factors < u64::MAX { factors.or_factors + 1 } else { factors.or_factors };
                return;
            } else if *operator == BinaryOperator::Equal || *operator == BinaryOperator::Less
                || *operator == BinaryOperator::LessEqual || *operator == BinaryOperator::Greater
                || *operator == BinaryOperator::GreaterEqual {
                match (&**left, &**right) {
                    (Expression::Identifier(column_name), Expression::Literal(literal)) => {
                        match table_stats.column_stats.get(column_name.as_str()) {
                            Some(column_stats) => {
                                if column_stats.is_indexed {
                                    let value = match literal_to_column_value(literal) {
                                        Ok(v) => v,
                                        Err(_) => {
                                            assert(false);
                                            return;
                                        },
                                    };
                                    if *operator == BinaryOperator::Equal {
                                        let card: usize = if column_stats.distinct_count > 0 {
                                            table_stats.row_count / column_stats.distinct_count
                                        } else {
                                            1
                                        };
                                        let is_pk = match &table_stats.primary_key_column {
                                            Some(pk) => *pk == *column_name,
                                            None => false,
                                        };
                                        let term = IndexEligibleTerm {
                                            column_name: column_name.clone(),
                                            operator: *operator,
                                            value,
                                            estimated_cardinality: card,
                                            is_primary_key: is_pk,
                                        };
                                        index_terms.push(term);
                                        assert(index_views(index_terms@) =~= before.0.push(index_term_view(term)));
                                    } else {
                                        let k = find_range_term(range_terms, column_name);
                                        let upper = *operator == BinaryOperator::Less || *operator == BinaryOperator::LessEqual;
                                        let ghost views = range_views(range_terms@);
                                        if k < range_terms.len() {
                                            let mut t = range_terms.remove(k);
                                            if upper {
                                                t.max_value = Some(value);
                                            } else {
                                                t.min_value = Some(value);
                                            }
                                            let ghost tv = range_term_view(t);
                                            range_terms.insert(k, t);
                                            assert(range_views(range_terms@) =~= views.update(k as int, tv));
                                        } else {
                                            let (min_val, max_val) = if upper {
                                                (None, Some(value))
                                            } else {
                                                (Some(value), None)
                                            };
                                            let term = RangeScanTerm {
                                                column_name: column_name.clone(),
                                                min_value: min_val,
                                                max_value: max_val,
                                                estimated_cardinality: table_stats.row_count / 3,
                                            };
                                            let ghost tv = range_term_view(term);
                                            range_terms.push(term);
                                            assert(range_views(range_terms@) =~= views.push(tv));
                                        }
                                    }
                                    return;
                                }
                            },
                            None => {},
                        }
                    },
                    _ => {},
                }
            }
        },
        _ => {},
    }
    bitmap_terms.push(expr);
    assert(expressions_of(bitmap_terms@) =~= before.2.push(*expr));
}

/// Where a term with cardinality `card` goes in a sorted list: after every term with a
/// cardinality no larger.
pub open spec fn index_insert_position(s: Seq<(Seq<char>, BinaryOperator, ColumnValueView, usize, bool)>, card: usize) -> int
    decreases s.len(),
{
    if s.len() == 0 {
        0
    } else if card < s[0].3 {
        0
    } else {
        1 + index_insert_position(s.drop_first(), card)
    }
}

/// The index terms sorted by cardinality, smallest first; terms of equal cardinality keep
/// their order.
pub open spec fn sort_index_views(s: Seq<(Seq<char>, BinaryOperator, ColumnValueView, usize, bool)>) -> Seq<(Seq<char>, BinaryOperator, ColumnValueView, usize, bool)>
    decreases s.len(),
{
    if s.len() == 0 {
        s
    } else {
        let sorted = sort_index_views(s.drop_last());
        sorted.insert(index_insert_position(sorted, s.last().3), s.last())
    }
}

/// Where a range term with cardinality `card` goes in a sorted list.
pub open spec fn range_insert_position(s: Seq<(Seq<char>, Option<ColumnValueView>, Option<ColumnValueView>, usize)>, card: usize) -> int
    decreases s.len(),
{
    if s.len() == 0 {
        0
    } else if card < s[0].3 {
        0
    } else {
        1 + range_insert_position(s.drop_first(), card)
    }
}

/// The range terms sorted by cardinality, smallest first; terms of equal cardinality keep
/// their order.
pub open spec fn sort_range_views(s: Seq<(Seq<char>, Option<ColumnValueView>, Option<ColumnValueView>, usize)>) -> Seq<(Seq<char>, Option<ColumnValueView>, Option<ColumnValueView>, usize)>
    decreases s.len(),
{
    if s.len() == 0 {
        s
    } else {
        let sorted = sort_range_views(s.drop_last());
        sorted.insert(range_insert_position(sorted, s.last().3), s.last())
    }
}

proof fn lemma_index_insert_position(s: Seq<(Seq<char>, BinaryOperator, ColumnValueView, usize, bool)>, card: usize)
    ensures
        0 <= index_insert_position(s, card) <= s.len(),
        forall|i: int| 0 <= i < index_insert_position(s, card) ==> (#[trigger] s[i]).3 <= card,
        index_views_sorted(s) && index_insert_position(s, card) < s.len() ==> card < s[index_insert_position(s, card)].3,
    decreases s.len(),
{
    if s.len() > 0 && card >= s[0].3 {
        lemma_index_insert_position(s.drop_first(), card);
        assert forall|i: int| 0 <= i < index_insert_position(s, card) implies (#[trigger] s[i]).3 <= card by {
            if i > 0 {
                assert(s[i] == s.drop_first()[i - 1]);
            }
        }
    }
}

proof fn lemma_range_insert_position(s: Seq<(Seq<char>, Option<ColumnValueView>, Option<ColumnValueView>, usize)>, card: usize)
    ensures
        0 <= range_insert_position(s, card) <= s.len(),
        forall|i: int| 0 <= i < range_insert_position(s, card) ==> (#[trigger] s[i]).3 <= card,
        range_views_sorted(s) && range_insert_position(s, card) < s.len() ==> card < s[range_insert_position(s, card)].3,
    decreases s.len(),
{
    if s.len() > 0 && card >= s[0].3 {
        lemma_range_insert_position(s.drop_first(), card);
        assert forall|i: int| 0 <= i < range_insert_position(s, card) implies (#[trigger] s[i]).3 <= card by {
            if i > 0 {
                assert(s[i] == s.drop_first()[i - 1]);
            }
        }
    }
}

fn index_position(sorted: &Vec<IndexEligibleTerm>, card: usize) -> (r: usize)
    ensures
        r == index_insert_position(index_views(sorted@), card),
{
    let ghost views = index_views(sorted@);
    let mut i: usize = 0;
    assert(views.skip(0) =~= views);
    while i < sorted.len()
        invariant
            views == index_views(sorted@),
            i <= sorted@.len(),
            index_insert_position(views, card) == i + index_insert_position(views.skip(i as int), card),
        decreases sorted@.len() - i,
    {
        if card < sorted[i].estimated_cardinality {
            assert(views.skip(i as int)[0] == views[i as int]);
            return i;
        }
        assert(views.skip(i as int).drop_first() =~= views.skip(i + 1));
        i = i + 1;
    }
    assert(views.skip(i as int) =~= Seq::<(Seq<char>, BinaryOperator, ColumnValueView, usize, bool)>::empty());
    i
}

fn range_position_for(sorted: &Vec<RangeScanTerm>, card: usize) -> (r: usize)
    ensures
        r == range_insert_position(range_views(sorted@), card),
{
    let ghost views = range_views(sorted@);
    let mut i: usize = 0;
    assert(views.skip(0) =~= views);
    while i < sorted.len()
        invariant
            views == range_views(sorted@),
            i <= sorted@.len(),
            range_insert_position(views, card) == i + range_insert_position(views.skip(i as int), card),
        decreases sorted@.len() - i,
    {
        if card < sorted[i].estimated_cardinality {
            assert(views.skip(i as int)[0] == views[i as int]);
            return i;
        }
        assert(views.skip(i as int).drop_first() =~= views.skip(i + 1));
        i = i + 1;
    }
    assert(views.skip(i as int) =~= Seq::<(Seq<char>, Option<ColumnValueView>, Option<ColumnValueView>, usize)>::empty());
    i
}

/// The index terms sorted by cardinality, smallest first, keeping the order of equal ones.
pub fn sort_index_terms(terms: Vec<IndexEligibleTerm>) -> (r: Vec<IndexEligibleTerm>)
    ensures
        index_views(r@) == sort_index_views(index_views(terms@)),
{
    let ghost all = index_views(terms@);
    let mut input = terms;
    let mut sorted: Vec<IndexEligibleTerm> = Vec::new();
    let mut done: usize = 0;
    let n = input.len();
    assert(all.take(0) =~= Seq::<(Seq<char>, BinaryOperator, ColumnValueView, usize, bool)>::empty());
    assert(index_views(input@) =~= all.skip(0));
    while input.len() > 0
        invariant
            n == all.len(),
            done + input@.len() == n,
            index_views(input@) == all.skip(done as int),
            index_views(sorted@) == sort_index_views(all.take(done as int)),
        decreases input@.len(),
    {
        let ghost rest = input@;
        let t = input.remove(0);
        assert(index_views(input@) =~= all.skip(done + 1)) by {
            assert(index_views(rest) == all.skip(done as int));
            assert forall|k: int| 0 <= k < input@.len() implies index_term_view(#[trigger] input@[k]) == all[done + 1 + k] by {
                assert(input@[k] == rest[k + 1]);
                assert(index_views(rest)[k + 1] == all.skip(done as int)[k + 1]);
            }
        }
        assert(index_term_view(t) == all[done as int]) by {
            assert(index_views(rest)[0] == all.skip(done as int)[0]);
        }
        let pos = index_position(&sorted, t.estimated_cardinality);
        proof {
            lemma_index_insert_position(index_views(sorted@), t.estimated_cardinality);
        }
        let ghost before = index_views(sorted@);
        let ghost tv = index_term_view(t);
        sorted.insert(pos, t);
        assert(index_views(sorted@) =~= before.insert(pos as int, tv));
        assert(all.take(done + 1).drop_last() =~= all.take(done as int));
        assert(all.take(done + 1).last() == tv);
        done = done + 1;
    }
    assert(all.take(done as int) =~= all);
    sorted
}

/// The range terms sorted by cardinality, smallest first, keeping the order of equal ones.
pub fn sort_range_terms(terms: Vec<RangeScanTerm>) -> (r: Vec<RangeScanTerm>)
    ensures
        range_views(r@) == sort_range_views(range_views(terms@)),
{
    let ghost all = range_views(terms@);
    let mut input = terms;
    let mut sorted: Vec<RangeScanTerm> = Vec::new();
    let mut done: usize = 0;
    let n = input.len();
    assert(all.take(0) =~= Seq::<(Seq<char>, Option<ColumnValueView>, Option<ColumnValueView>, usize)>::empty());
    assert(range_views(input@) =~= all.skip(0));
    while input.len() > 0
        invariant
            n == all.len(),
            done + input@.len() == n,
            range_views(input@) == all.skip(done as int),
            range_views(sorted@) == sort_range_views(all.take(done as int)),
        decreases input@.len(),
    {
        let ghost rest = input@;
        let t = input.remove(0);
        assert(range_views(input@) =~= all.skip(done + 1)) by {
            assert(range_views(rest) == all.skip(done as int));
            assert forall|k: int| 0 <= k < input@.len() implies range_term_view(#[trigger] input@[k]) == all[done + 1 + k] by {
                assert(input@[k] == rest[k + 1]);
                assert(range_views(rest)[k + 1] == all.skip(done as int)[k + 1]);
            }
        }
        assert(range_term_view(t) == all[done as int]) by {
            assert(range_views(rest)[0] == all.skip(done as int)[0]);
        }
        let pos = range_position_for(&sorted, t.estimated_cardinality);
        proof {
            lemma_range_insert_position(range_views(sorted@), t.estimated_cardinality);
        }
        let ghost before = range_views(sorted@);
        let ghost tv = range_term_view(t);
        sorted.insert(pos, t);
        assert(range_views(sorted@) =~= before.insert(pos as int, tv));
        assert(all.take(done + 1).drop_last() =~= all.take(done as int));
        assert(all.take(done + 1).last() == tv);
        done = done + 1;
    }
    assert(all.take(done as int) =~= all);
    sorted
}

/// The result of analysing a filter predicate against a table's statistics.
#[derive(Debug)]
pub struct PredicateAnalysis<'a> {
    /// Index terms, smallest cardinality first.
    pub index_eligible_terms: Vec<IndexEligibleTerm>,
    /// Range terms, smallest cardinality first.
    pub range_scan_terms: Vec<RangeScanTerm>,
    /// Parts of the predicate that only a filter can check.
    pub bitmap_filter_terms: Vec<&'a Expression>,
    /// What remains of the predicate besides the terms; not computed.
    pub residual_predicate: Option<Expression>,
    /// The `AND` and `OR` nodes that scale the selectivity.
    pub selectivity_factors: SelectivityFactors,
}

/// The analysis of `predicate` from an empty start.
pub open spec fn predicate_terms(predicate: Expression, stats: TableStatistics) -> (Seq<(Seq<char>, BinaryOperator, ColumnValueView, usize, bool)>, Seq<(Seq<char>, Option<ColumnValueView>, Option<ColumnValueView>, usize)>, Seq<Expression>, u64, u64) {
    analyze_terms(predicate, stats, (Seq::empty(), Seq::empty(), Seq::empty(), 0, 0))
}

/// Analyses `predicate`: its index terms and range terms, each sorted by cardinality, the
/// parts only a filter can check, and its selectivity factors.
pub fn analyze_predicate_complexity<'a>(predicate: &'a Expression, table_stats: &TableStatistics) -> (r: PredicateAnalysis<'a>)
    requires
        table_stats.column_stats.wf(),
    ensures
        ({
            let t = predicate_terms(*predicate, *table_stats);
            &&& index_views(r.index_eligible_terms@) == sort_index_views(t.0)
            &&& range_views(r.range_scan_terms@) == sort_range_views(t.1)
            &&& expressions_of(r.bitmap_filter_terms@) == t.2
            &&& r.selectivity_factors.and_factors == t.3
            &&& r.selectivity_factors.or_factors == t.4
            &&& r.residual_predicate is None
        }),
{
    let mut index_terms: Vec<IndexEligibleTerm> = Vec::new();
    let mut range_terms: Vec<RangeScanTerm> = Vec::new();
    let mut bitmap_terms: Vec<&'a Expression> = Vec::new();
    let mut factors = SelectivityFactors { and_factors: 0, or_factors: 0 };
    assert(index_views(index_terms@) =~= Seq::<(Seq<char>, BinaryOperator, ColumnValueView, usize, bool)>::empty());
    assert(range_views(range_terms@) =~= Seq::<(Seq<char>, Option<ColumnValueView>, Option<ColumnValueView>, usize)>::empty());
    assert(expressions_of(bitmap_terms@) =~= Seq::<Expression>::empty());
    extract_index_eligible_terms(predicate, table_stats, &mut index_terms, &mut range_terms, &mut bitmap_terms, &mut factors);
    PredicateAnalysis {
        index_eligible_terms: sort_index_terms(index_terms),
        range_scan_terms: sort_range_terms(range_terms),
        bitmap_filter_terms: bitmap_terms,
        residual_predicate: None,
        selectivity_factors: factors,
    }
}

/// The scan for a filtered table: a lookup on the first index term if there is one, else a
/// range scan on the first range term if there is one, else a filtered scan with the whole
/// predicate.
pub fn create_optimized_plan_from_analysis(
    table_name: String,
    projection: Vec<FieldProjection>,
    original_predicate: Expression,
    index_terms: Vec<IndexEligibleTerm>,
    range_terms: Vec<RangeScanTerm>,
) -> (r: QueryPlan)
    ensures
        index_terms@.len() > 0 ==> (r matches QueryPlan::IndexScan { table_name: t, projection: p, index_column, index_value }
            && t == table_name && p == projection && index_column == index_terms@[0].column_name
            && index_value == index_terms@[0].value),
        index_terms@.len() == 0 && range_terms@.len() > 0 ==> (r matches QueryPlan::RangeScan { table_name: t, projection: p, index_column, min_value, max_value }
            && t == table_name && p == projection && index_column == range_terms@[0].column_name
            && min_value == range_terms@[0].min_value && max_value == range_terms@[0].max_value),
        index_terms@.len() == 0 && range_terms@.len() == 0 ==> r == (QueryPlan::FilteredScan {
            table_name,
            projection,
            predicate: original_predicate,
        }),
{
    let mut index_terms = index_terms;
    let mut range_terms = range_terms;
    if index_terms.len() > 0 {
        let best = index_terms.remove(0);
        return QueryPlan::IndexScan {
            table_name,
            projection,
            index_column: best.column_name,
            index_value: best.value,
        };
    }
    if range_terms.len() > 0 {
        let best = range_terms.remove(0);
        return QueryPlan::RangeScan {
            table_name,
            projection,
            index_column: best.column_name,
            min_value: best.min_value,
            max_value: best.max_value,
        };
    }
    QueryPlan::FilteredScan { table_name, projection, predicate: original_predicate }
}

/// Whether the index terms are in order of cardinality.
pub open spec fn index_views_sorted(s: Seq<(Seq<char>, BinaryOperator, ColumnValueView, usize, bool)>) -> bool {
    forall|i: int, j: int| 0 <= i < j < s.len() ==> (#[trigger] s[i]).3 <= (#[trigger] s[j]).3
}

/// Whether the range terms are in order of cardinality.
pub open spec fn range_views_sorted(s: Seq<(Seq<char>, Option<ColumnValueView>, Option<ColumnValueView>, usize)>) -> bool {
    forall|i: int, j: int| 0 <= i < j < s.len() ==> (#[trigger] s[i]).3 <= (#[trigger] s[j]).3
}

proof fn lemma_index_insert_sorted(s: Seq<(Seq<char>, BinaryOperator, ColumnValueView, usize, bool)>, x: (Seq<char>, BinaryOperator, ColumnValueView, usize, bool))
    requires
        index_views_sorted(s),
    ensures
        index_views_sorted(s.insert(index_insert_position(s, x.3), x)),
        s.insert(index_insert_position(s, x.3), x).len() == s.len() + 1,
{
    lemma_index_insert_position(s, x.3);
    let p = index_insert_position(s, x.3);
    s.insert_ensures(p, x);
    let r = s.insert(p, x);
    assert forall|i: int, j: int| 0 <= i < j < r.len() implies (#[trigger] r[i]).3 <= (#[trigger] r[j]).3 by {
        if j < p {
            assert(r[i] == s[i] && r[j] == s[j]);
        } else if j == p {
            assert(r[i] == s[i]);
        } else if i < p {
            assert(r[i] == s[i] && r[j] == s[j - 1]);
        } else if i == p {
            assert(r[j] == s[j - 1]);
            assert(s[p].3 <= s[j - 1].3 || p == j - 1);
        } else {
            assert(r[i] == s[i - 1] && r[j] == s[j - 1]);
        }
    }
}

proof fn lemma_range_insert_sorted(s: Seq<(Seq<char>, Option<ColumnValueView>, Option<ColumnValueView>, usize)>, x: (Seq<char>, Option<ColumnValueView>, Option<ColumnValueView>, usize))
    requires
        range_views_sorted(s),
    ensures
        range_views_sorted(s.insert(range_insert_position(s, x.3), x)),
        s.insert(range_insert_position(s, x.3), x).len() == s.len() + 1,
{
    lemma_range_insert_position(s, x.3);
    let p = range_insert_position(s, x.3);
    s.insert_ensures(p, x);
    let r = s.insert(p, x);
    assert forall|i: int, j: int| 0 <= i < j < r.len() implies (#[trigger] r[i]).3 <= (#[trigger] r[j]).3 by {
        if j < p {
            assert(r[i] == s[i] && r[j] == s[j]);
        } else if j == p {
            assert(r[i] == s[i]);
        } else if i < p {
            assert(r[i] == s[i] && r[j] == s[j - 1]);
        } else if i == p {
            assert(r[j] == s[j - 1]);
            assert(s[p].3 <= s[j - 1].3 || p == j - 1);
        } else {
            assert(r[i] == s[i - 1] && r[j] == s[j - 1]);
        }
    }
}

/// Sorting the terms of a predicate puts them in order of cardinality, smallest first, and
/// keeps their number.
pub proof fn law_terms_sorted_by_cardinality(
    index_terms: Seq<(Seq<char>, BinaryOperator, ColumnValueView, usize, bool)>,
    range_terms: Seq<(Seq<char>, Option<ColumnValueView>, Option<ColumnValueView>, usize)>,
)
    ensures
        index_views_sorted(sort_index_views(index_terms)),
        sort_index_views(index_terms).len() == index_terms.len(),
        range_views_sorted(sort_range_views(range_terms)),
        sort_range_views(range_terms).len() == range_terms.len(),
    decreases index_terms.len() + range_terms.len(),
{
    if index_terms.len() > 0 {
        law_terms_sorted_by_cardinality(index_terms.drop_last(), range_terms);
        lemma_index_insert_sorted(sort_index_views(index_terms.drop_last()), index_terms.last());
    }
    if range_terms.len() > 0 {
        law_terms_sorted_by_cardinality(index_terms, range_terms.drop_last());
        lemma_range_insert_sorted(sort_range_views(range_terms.drop_last()), range_terms.last());
    }
}

/// The analysis of a predicate only adds to what it starts from: the index terms and filter
/// terms found before stay, in front and in order, and the `AND` and `OR` counts never go
/// down.
pub proof fn law_analysis_extends(
    e: Expression,
    stats: TableStatistics,
    st: (Seq<(Seq<char>, BinaryOperator, ColumnValueView, usize, bool)>, Seq<(Seq<char>, Option<ColumnValueView>, Option<ColumnValueView>, usize)>, Seq<Expression>, u64, u64),
)
    ensures
        ({
            let r = analyze_terms(e, stats, st);
            &&& st.0.len() <= r.0.len() && r.0.take(st.0.len() as int) == st.0
            &&& st.2.len() <= r.2.len() && r.2.take(st.2.len() as int) == st.2
            &&& st.3 <= r.3
            &&& st.4 <= r.4
        }),
    decreases e,
{
    let r = analyze_terms(e, stats, st);
    match e {
        Expression::BinaryOp { left, operator, right } => {
            if operator == BinaryOperator::And {
                let after_left = analyze_terms(*left, stats, st);
                law_analysis_extends(*left, stats, st);
                law_analysis_extends(*right, stats, after_left);
                let after_right = analyze_terms(*right, stats, after_left);
                assert(r.0.take(st.0.len() as int) =~= after_right.0.take(after_left.0.len() as int).take(st.0.len() as int));
                assert(r.2.take(st.2.len() as int) =~= after_right.2.take(after_left.2.len() as int).take(st.2.len() as int));
            } else {
                assert(r.0.take(st.0.len() as int) =~= st.0);
                assert(r.2.take(st.2.len() as int) =~= st.2);
            }
        },
        _ => {
            assert(st.2.push(e).take(st.2.len() as int) =~= st.2);
            assert(st.0.take(st.0.len() as int) =~= st.0);
        },
    }
}

/// A bound `col op v` goes to the range term on `col`: `<` and `<=` set its upper bound and
/// keep its lower one, `>` and `>=` set its lower bound and keep its upper one. Without a term
/// on `col`, a new term is added at the end with only that bound.
pub proof fn law_range_bound_side(
    terms: Seq<(Seq<char>, Option<ColumnValueView>, Option<ColumnValueView>, usize)>,
    name: Seq<char>,
    op: BinaryOperator,
    v: ColumnValueView,
    row_count: usize,
)
    requires
        op == BinaryOperator::Less || op == BinaryOperator::LessEqual || op == BinaryOperator::Greater
            || op == BinaryOperator::GreaterEqual,
    ensures
        ({
            let r = merge_range(terms, name, op, v, row_count);
            let k = range_position(terms, name);
            let lower = op == BinaryOperator::Greater || op == BinaryOperator::GreaterEqual;
            &&& k < terms.len() ==> r == terms.update(k, if lower {
                (terms[k].0, Some(v), terms[k].2, terms[k].3)
            } else {
                (terms[k].0, terms[k].1, Some(v), terms[k].3)
            })
            &&& k >= terms.len() ==> r == terms.push(if lower {
                (name, Some(v), None, (row_count / 3) as usize)
            } else {
                (name, None, Some(v), (row_count / 3) as usize)
            })
        }),
{
}

/// A single comparison `col op literal` on an indexed column, analysed from nothing, gives
/// one range term on `col` whose lower bound is the literal for `>` and `>=` and whose upper
/// bound is the literal for `<` and `<=`, the other bound open, with a third of the rows.
pub proof fn law_comparison_gives_one_range_term(
    col: String,
    op: BinaryOperator,
    lit: Literal,
    stats: TableStatistics,
)
    requires
        indexed_column(stats, col@) is Some,
        op == BinaryOperator::Less || op == BinaryOperator::LessEqual || op == BinaryOperator::Greater
            || op == BinaryOperator::GreaterEqual,
    ensures
        ({
            let e = Expression::BinaryOp {
                left: Box::new(Expression::Identifier(col)),
                operator: op,
                right: Box::new(Expression::Literal(lit)),
            };
            let r = analyze_terms(e, stats, (seq![], seq![], seq![], 0, 0));
            let lower = op == BinaryOperator::Greater || op == BinaryOperator::GreaterEqual;
            &&& r.0.len() == 0
            &&& r.2.len() == 0
            &&& r.1 == seq![if lower {
                (col@, Some(literal_view(lit)), None, (stats.row_count / 3) as usize)
            } else {
                (col@, None, Some(literal_view(lit)), (stats.row_count / 3) as usize)
            }]
        }),
{
    let empty = Seq::<(Seq<char>, Option<ColumnValueView>, Option<ColumnValueView>, usize)>::empty();
    assert(range_position(empty, col@) == 0);
    assert(empty.push((col@, Some(literal_view(lit)), None, (stats.row_count / 3) as usize)) =~= seq![
        (col@, Some(literal_view(lit)), None, (stats.row_count / 3) as usize),
    ]);
    assert(empty.push((col@, None, Some(literal_view(lit)), (stats.row_count / 3) as usize)) =~= seq![
        (col@, None, Some(literal_view(lit)), (stats.row_count / 3) as usize),
    ]);
}

/// An equality `col == literal` on an indexed column, analysed from nothing, gives one index
/// term: the column, `==`, the literal, the rows per distinct value as its cardinality (one
/// when the column has no distinct count), and whether the column is the primary key.
pub proof fn law_equality_gives_one_index_term(col: String, lit: Literal, stats: TableStatistics)
    requires
        indexed_column(stats, col@) is Some,
    ensures
        ({
            let e = Expression::BinaryOp {
                left: Box::new(Expression::Identifier(col)),
                operator: BinaryOperator::Equal,
                right: Box::new(Expression::Literal(lit)),
            };
            let r = analyze_terms(e, stats, (seq![], seq![], seq![], 0, 0));
            let cs = stats.column_stats@[col@];
            &&& r.1.len() == 0
            &&& r.2.len() == 0
            &&& r.0.len() == 1
            &&& r.0[0].0 == col@
            &&& r.0[0].1 == BinaryOperator::Equal
            &&& r.0[0].2 == literal_view(lit)
            &&& r.0[0].3 == if cs.distinct_count > 0 {
                (stats.row_count / cs.distinct_count) as usize
            } else {
                1usize
            }
            &&& r.0[0].4 == (stats.primary_key_column matches Some(pk) && pk@ == col@)
        }),
{
}

/// A comparison on a column that has no index, analysed from nothing, is kept whole as the
/// only filter term.
pub proof fn law_unindexed_comparison_is_filtered(col: String, op: BinaryOperator, lit: Literal, stats: TableStatistics)
    requires
        indexed_column(stats, col@) is None,
        op == BinaryOperator::Equal || op == BinaryOperator::Less || op == BinaryOperator::LessEqual
            || op == BinaryOperator::Greater || op == BinaryOperator::GreaterEqual,
    ensures
        ({
            let e = Expression::BinaryOp {
                left: Box::new(Expression::Identifier(col)),
                operator: op,
                right: Box::new(Expression::Literal(lit)),
            };
            let r = analyze_terms(e, stats, (seq![], seq![], seq![], 0, 0));
            &&& r.0.len() == 0
            &&& r.1.len() == 0
            &&& r.2 == seq![e]
        }),
{
    let e = Expression::BinaryOp {
        left: Box::new(Expression::Identifier(col)),
        operator: op,
        right: Box::new(Expression::Literal(lit)),
    };
    assert(Seq::<Expression>::empty().push(e) =~= seq![e]);
}

} // verus!
