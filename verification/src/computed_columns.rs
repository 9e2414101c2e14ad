//! Computed columns: which columns each computed column reads, and an order in which they can
//! be evaluated.
use vstd::prelude::*;

use crate::ast::{Argument, ConstValue, Expression, MatchArm, Statement, TableColumn, TableDef};
use crate::graph::{
    graph_view, has_cycle_spec, lemma_order_excludes_cycle, lemma_stuck_set_has_cycle,
    stuck_set, topological_order, topological_order_of,
};
use crate::names::{string_views, NameSet, StrMap};

verus! {

/// The columns among `cols` that an expression reads. A call reads its arguments, not the
/// name of the function; function bodies, loops, shaders, paths and queries read nothing.
pub open spec fn expr_deps(e: Expression, cols: Set<Seq<char>>) -> Set<Seq<char>>
    decreases e,
{
    match e {
        Expression::Identifier(name) => if cols.contains(name@) {
            set![name@]
        } else {
            Set::empty()
        },
        Expression::BinaryOp { left, right, .. } => expr_deps(*left, cols) + expr_deps(*right, cols),
        Expression::UnaryOp { operand, .. } => expr_deps(*operand, cols),
        Expression::Cast { value, .. } => expr_deps(*value, cols),
        Expression::Call { arguments, .. } => args_deps(arguments@, cols),
        Expression::FieldAccess { object, .. } => expr_deps(*object, cols),
        Expression::Index { object, indices } => expr_deps(*object, cols) + exprs_deps(indices@, cols),
        Expression::If { condition, then_branch, else_branch } => expr_deps(*condition, cols)
            + stmts_deps(then_branch@, cols) + match else_branch {
            Some(stmts) => stmts_deps(stmts@, cols),
            None => Set::empty(),
        },
        Expression::IfExpr { condition, then_expr, else_expr } => expr_deps(*condition, cols)
            + expr_deps(*then_expr, cols) + match else_expr {
            Some(x) => expr_deps(*x, cols),
            None => Set::empty(),
        },
        Expression::Block { statements } => stmts_deps(statements@, cols),
        Expression::UnsafeBlock { statements } => stmts_deps(statements@, cols),
        Expression::Tuple(items) => exprs_deps(items@, cols),
        Expression::Match { value, arms } => expr_deps(*value, cols) + arms_deps(arms@, cols),
        Expression::StructLiteral { fields, .. } => fields_deps(fields@, cols),
        Expression::ArrayNew { dimensions, .. } => exprs_deps(dimensions@, cols),
        Expression::Matrix { rows } => rows_deps(rows@, cols),
        Expression::Range { start, end, step } => expr_deps(*start, cols) + expr_deps(*end, cols)
            + match step {
            Some(x) => expr_deps(*x, cols),
            None => Set::empty(),
        },
        Expression::Question(inner) => expr_deps(*inner, cols),
        Expression::Unwrap(inner) => expr_deps(*inner, cols),
        _ => Set::empty(),
    }
}

pub open spec fn exprs_deps(s: Seq<Expression>, cols: Set<Seq<char>>) -> Set<Seq<char>>
    decreases s,
{
    if s.len() == 0 {
        Set::empty()
    } else {
        exprs_deps(s.drop_last(), cols) + expr_deps(s.last(), cols)
    }
}

pub open spec fn args_deps(s: Seq<Argument>, cols: Set<Seq<char>>) -> Set<Seq<char>>
    decreases s,
{
    if s.len() == 0 {
        Set::empty()
    } else {
        args_deps(s.drop_last(), cols) + expr_deps(s.last().value, cols)
    }
}

pub open spec fn arms_deps(s: Seq<MatchArm>, cols: Set<Seq<char>>) -> Set<Seq<char>>
    decreases s,
{
    if s.len() == 0 {
        Set::empty()
    } else {
        arms_deps(s.drop_last(), cols) + expr_deps(s.last().pattern, cols) + expr_deps(s.last().body, cols)
    }
}

pub open spec fn fields_deps(s: Seq<(String, Expression)>, cols: Set<Seq<char>>) -> Set<Seq<char>>
    decreases s,
{
    if s.len() == 0 {
        Set::empty()
    } else {
        fields_deps(s.drop_last(), cols) + expr_deps(s.last().1, cols)
    }
}

pub open spec fn rows_deps(s: Seq<Vec<Expression>>, cols: Set<Seq<char>>) -> Set<Seq<char>>
    decreases s,
{
    if s.len() == 0 {
        Set::empty()
    } else {
        rows_deps(s.drop_last(), cols) + exprs_deps(s.last()@, cols)
    }
}

/// The columns among `cols` that a statement reads.
pub open spec fn stmt_deps(st: Statement, cols: Set<Seq<char>>) -> Set<Seq<char>>
    decreases st,
{
    match st {
        Statement::VariableDecl { value, .. } => expr_deps(value, cols),
        Statement::ConstDecl { value, .. } => match value {
            ConstValue::Expression(x) => expr_deps(x, cols),
            _ => Set::empty(),
        },
        Statement::Assignment { target, value, .. } => expr_deps(target, cols) + expr_deps(value, cols),
        Statement::Expression(x) => expr_deps(x, cols),
        Statement::Return(Some(x)) => expr_deps(x, cols),
        Statement::Break(Some(x)) => expr_deps(x, cols),
        Statement::ForLoop { iterable, body, .. } => expr_deps(iterable, cols) + stmts_deps(body@, cols),
        _ => Set::empty(),
    }
}

pub open spec fn stmts_deps(s: Seq<Statement>, cols: Set<Seq<char>>) -> Set<Seq<char>>
    decreases s,
{
    if s.len() == 0 {
        Set::empty()
    } else {
        stmts_deps(s.drop_last(), cols) + stmt_deps(s.last(), cols)
    }
}

/// Adds to `deps` the columns among `column_names` that `expr` reads.
fn extract_dependencies_recursive(expr: &Expression, deps: &mut NameSet, column_names: &NameSet)
    requires
        old(deps).wf(),
        column_names.wf(),
    ensures
        final(deps).wf(),
        final(deps)@ == old(deps)@ + expr_deps(*expr, column_names@),
    decreases expr,
{
    let ghost cols = column_names@;
    match expr {
        Expression::Identifier(name) => {
            if column_names.contains(name.as_str()) {
                deps.insert(name.clone());
                assert(deps@ =~= old(deps)@ + set![name@]);
            } else {
                assert(deps@ =~= old(deps)@ + Set::<Seq<char>>::empty());
            }
        },
        Expression::BinaryOp { left, right, .. } => {
            extract_dependencies_recursive(left, deps, column_names);
            extract_dependencies_recursive(right, deps, column_names);
            assert(deps@ =~= old(deps)@ + expr_deps(*expr, cols));
        },
        Expression::UnaryOp { operand, .. } => {
            extract_dependencies_recursive(operand, deps, column_names);
        },
        Expression::Cast { value, .. } => {
            extract_dependencies_recursive(value, deps, column_names);
        },
        Expression::Call { arguments, .. } => {
            let mut i: usize = 0;
            assert(arguments@.take(0) =~= Seq::<Argument>::empty());
            proof {
                assert(decreases_to!(*expr => *arguments));
                assert(decreases_to!(*arguments => arguments@));
            }
            assert(deps@ =~= old(deps)@ + args_deps(arguments@.take(0), cols));
            while i < arguments.len()
                invariant
                    i <= arguments@.len(),
                    deps.wf(),
                    column_names.wf(),
                    cols == column_names@,
                    decreases_to!(*expr => arguments@),
                    deps@ == old(deps)@ + args_deps(arguments@.take(i as int), cols),
                decreases arguments@.len() - i,
            {
                proof {
                    assert(decreases_to!(arguments@ => arguments@[i as int]));
                    assert(decreases_to!(arguments@[i as int] => arguments@[i as int].value));
                }
                extract_dependencies_recursive(&arguments[i].value, deps, column_names);
                assert(arguments@.take(i + 1).drop_last() =~= arguments@.take(i as int));
                assert(deps@ =~= old(deps)@ + args_deps(arguments@.take(i + 1), cols));
                i = i + 1;
            }
            assert(arguments@.take(i as int) =~= arguments@);
        },
        Expression::FieldAccess { object, .. } => {
            extract_dependencies_recursive(object, deps, column_names);
        },
        Expression::Index { object, indices } => {
            extract_dependencies_recursive(object, deps, column_names);
            let ghost mid = deps@;
            extract_exprs(indices, deps, column_names);
            assert(deps@ =~= old(deps)@ + expr_deps(*expr, cols));
        },
        Expression::If { condition, then_branch, else_branch } => {
            extract_dependencies_recursive(condition, deps, column_names);
            extract_stmts(then_branch, deps, column_names);
            match else_branch {
                Some(stmts) => {
                    extract_stmts(stmts, deps, column_names);
                },
                None => {},
            }
            assert(deps@ =~= old(deps)@ + expr_deps(*expr, cols));
        },
        Expression::IfExpr { condition, then_expr, else_expr } => {
            extract_dependencies_recursive(condition, deps, column_names);
            extract_dependencies_recursive(then_expr, deps, column_names);
            match else_expr {
                Some(x) => {
                    extract_dependencies_recursive(x, deps, column_names);
                },
                None => {},
            }
            assert(deps@ =~= old(deps)@ + expr_deps(*expr, cols));
        },
        Expression::Block { statements } => {
            extract_stmts(statements, deps, column_names);
        },
        Expression::UnsafeBlock { statements } => {
            extract_stmts(statements, deps, column_names);
        },
        Expression::Tuple(items) => {
            extract_exprs(items, deps, column_names);
        },
        Expression::Match { value, arms } => {
            extract_dependencies_recursive(value, deps, column_names);
            let ghost mid = deps@;
            let mut i: usize = 0;
            assert(arms@.take(0) =~= Seq::<MatchArm>::empty());
            proof {
                assert(decreases_to!(*expr => *arms));
                assert(decreases_to!(*arms => arms@));
            }
            assert(deps@ =~= mid + arms_deps(arms@.take(0), cols));
            while i < arms.len()
                invariant
                    i <= arms@.len(),
                    deps.wf(),
                    column_names.wf(),
                    cols == column_names@,
                    decreases_to!(*expr => arms@),
                    deps@ == mid + arms_deps(arms@.take(i as int), cols),
                decreases arms@.len() - i,
            {
                proof {
                    assert(decreases_to!(arms@ => arms@[i as int]));
                    assert(decreases_to!(arms@[i as int] => arms@[i as int].pattern));
                    assert(decreases_to!(arms@[i as int] => arms@[i as int].body));
                }
                extract_dependencies_recursive(&arms[i].pattern, deps, column_names);
                extract_dependencies_recursive(&arms[i].body, deps, column_names);
                assert(arms@.take(i + 1).drop_last() =~= arms@.take(i as int));
                assert(deps@ =~= mid + arms_deps(arms@.take(i + 1), cols));
                i = i + 1;
            }
            assert(arms@.take(i as int) =~= arms@);
            assert(deps@ =~= old(deps)@ + expr_deps(*expr, cols));
        },
        Expression::StructLiteral { fields, .. } => {
            let mut i: usize = 0;
            assert(fields@.take(0) =~= Seq::<(String, Expression)>::empty());
            proof {
                assert(decreases_to!(*expr => *fields));
                assert(decreases_to!(*fields => fields@));
            }
            assert(deps@ =~= old(deps)@ + fields_deps(fields@.take(0), cols));
            while i < fields.len()
                invariant
                    i <= fields@.len(),
                    deps.wf(),
                    column_names.wf(),
                    cols == column_names@,
                    decreases_to!(*expr => fields@),
                    deps@ == old(deps)@ + fields_deps(fields@.take(i as int), cols),
                decreases fields@.len() - i,
            {
                proof {
                    assert(decreases_to!(fields@ => fields@[i as int]));
                    assert(decreases_to!(fields@[i as int] => fields@[i as int].1));
                }
                extract_dependencies_recursive(&fields[i].1, deps, column_names);
                assert(fields@.take(i + 1).drop_last() =~= fields@.take(i as int));
                assert(deps@ =~= old(deps)@ + fields_deps(fields@.take(i + 1), cols));
                i = i + 1;
            }
            assert(fields@.take(i as int) =~= fields@);
        },
        Expression::ArrayNew { dimensions, .. } => {
            extract_exprs(dimensions, deps, column_names);
        },
        Expression::Matrix { rows } => {
            let mut i: usize = 0;
            assert(rows@.take(0) =~= Seq::<Vec<Expression>>::empty());
            proof {
                assert(decreases_to!(*expr => *rows));
                assert(decreases_to!(*rows => rows@));
            }
            assert(deps@ =~= old(deps)@ + rows_deps(rows@.take(0), cols));
            while i < rows.len()
                invariant
                    i <= rows@.len(),
                    deps.wf(),
                    column_names.wf(),
                    cols == column_names@,
                    decreases_to!(*expr => rows@),
                    deps@ == old(deps)@ + rows_deps(rows@.take(i as int), cols),
                decreases rows@.len() - i,
            {
                proof {
                    assert(decreases_to!(rows@ => rows@[i as int]));
                    assert(decreases_to!(rows@[i as int] => rows@[i as int]@));
                }
                extract_exprs(&rows[i], deps, column_names);
                assert(rows@.take(i + 1).drop_last() =~= rows@.take(i as int));
                assert(deps@ =~= old(deps)@ + rows_deps(rows@.take(i + 1), cols));
                i = i + 1;
            }
            assert(rows@.take(i as int) =~= rows@);
        },
        Expression::Range { start, end, step } => {
            extract_dependencies_recursive(start, deps, column_names);
            extract_dependencies_recursive(end, deps, column_names);
            match step {
                Some(x) => {
                    extract_dependencies_recursive(x, deps, column_names);
                },
                None => {},
            }
            assert(deps@ =~= old(deps)@ + expr_deps(*expr, cols));
        },
        Expression::Question(inner) => {
            extract_dependencies_recursive(inner, deps, column_names);
        },
        Expression::Unwrap(inner) => {
            extract_dependencies_recursive(inner, deps, column_names);
        },
        _ => {
            assert(deps@ =~= old(deps)@ + Set::<Seq<char>>::empty());
        },
    }
}

/// Adds to `deps` the columns that a list of expressions reads.
fn extract_exprs(items: &Vec<Expression>, deps: &mut NameSet, column_names: &NameSet)
    requires
        old(deps).wf(),
        column_names.wf(),
    ensures
        final(deps).wf(),
        final(deps)@ == old(deps)@ + exprs_deps(items@, column_names@),
    decreases items@,
{
    let ghost cols = column_names@;
    let mut i: usize = 0;
    assert(items@.take(0) =~= Seq::<Expression>::empty());
    assert(deps@ =~= old(deps)@ + exprs_deps(items@.take(0), cols));
    while i < items.len()
        invariant
            i <= items@.len(),
            deps.wf(),
            column_names.wf(),
            cols == column_names@,
            deps@ == old(deps)@ + exprs_deps(items@.take(i as int), cols),
        decreases items@.len() - i,
    {
        extract_dependencies_recursive(&items[i], deps, column_names);
        assert(items@.take(i + 1).drop_last() =~= items@.take(i as int));
        assert(deps@ =~= old(deps)@ + exprs_deps(items@.take(i + 1), cols));
        i = i + 1;
    }
    assert(items@.take(i as int) =~= items@);
}

/// Adds to `deps` the columns that a list of statements reads.
fn extract_stmts(stmts: &Vec<Statement>, deps: &mut NameSet, column_names: &NameSet)
    requires
        old(deps).wf(),
        column_names.wf(),
    ensures
        final(deps).wf(),
        final(deps)@ == old(deps)@ + stmts_deps(stmts@, column_names@),
    decreases stmts@,
{
    let ghost cols = column_names@;
    let mut i: usize = 0;
    assert(stmts@.take(0) =~= Seq::<Statement>::empty());
    assert(deps@ =~= old(deps)@ + stmts_deps(stmts@.take(0), cols));
    while i < stmts.len()
        invariant
            i <= stmts@.len(),
            deps.wf(),
            column_names.wf(),
            cols == column_names@,
            deps@ == old(deps)@ + stmts_deps(stmts@.take(i as int), cols),
        decreases stmts@.len() - i,
    {
        extract_statement_dependencies(&stmts[i], deps, column_names);
        assert(stmts@.take(i + 1).drop_last() =~= stmts@.take(i as int));
        assert(deps@ =~= old(deps)@ + stmts_deps(stmts@.take(i + 1), cols));
        i = i + 1;
    }
    assert(stmts@.take(i as int) =~= stmts@);
}

/// Adds to `deps` the columns among `column_names` that a statement reads.
fn extract_statement_dependencies(stmt: &Statement, deps: &mut NameSet, column_names: &NameSet)
    requires
        old(deps).wf(),
        column_names.wf(),
    ensures
        final(deps).wf(),
        final(deps)@ == old(deps)@ + stmt_deps(*stmt, column_names@),
    decreases stmt,
{
    let ghost cols = column_names@;
    match stmt {
        Statement::VariableDecl { value, .. } => {
            extract_dependencies_recursive(value, deps, column_names);
        },
        Statement::ConstDecl { value, .. } => match value {
            ConstValue::Expression(x) => {
                extract_dependencies_recursive(x, deps, column_names);
            },
            _ => {
                assert(deps@ =~= old(deps)@ + Set::<Seq<char>>::empty());
            },
        },
        Statement::Assignment { target, value, .. } => {
            extract_dependencies_recursive(target, deps, column_names);
            extract_dependencies_recursive(value, deps, column_names);
            assert(deps@ =~= old(deps)@ + stmt_deps(*stmt, cols));
        },
        Statement::Expression(x) => {
            extract_dependencies_recursive(x, deps, column_names);
        },
        Statement::Return(Some(x)) => {
            extract_dependencies_recursive(x, deps, column_names);
        },
        Statement::Break(Some(x)) => {
            extract_dependencies_recursive(x, deps, column_names);
        },
        Statement::ForLoop { iterable, body, .. } => {
            extract_dependencies_recursive(iterable, deps, column_names);
            extract_stmts(body, deps, column_names);
            assert(deps@ =~= old(deps)@ + stmt_deps(*stmt, cols));
        },
        _ => {
            assert(deps@ =~= old(deps)@ + Set::<Seq<char>>::empty());
        },
    }
}

/// Why the computed columns of a table cannot be ordered.
#[derive(Debug)]
pub enum DependencyError {
    CircularDependency(Vec<String>),
    UnknownColumnReference(String),
    InvalidExpression(String),
}

/// Why a computed value could not be produced.
#[derive(Debug)]
pub enum EvaluationError {
    DependencyError(DependencyError),
    ExpressionEvaluationError(String),
    TypeMismatchError(String),
    MissingDependencyValue(String, crate::table_values::RowId),
}

/// A computed column: the columns it reads and the expression that computes it.
#[derive(Debug)]
pub struct ComputedColumnDependency<'a> {
    pub column_name: String,
    pub depends_on: NameSet,
    pub expression: &'a Expression,
}

/// The computed columns of a table and an order in which to evaluate them.
#[derive(Debug)]
pub struct DependencyGraph<'a> {
    pub dependencies: StrMap<ComputedColumnDependency<'a>>,
    pub evaluation_order: Vec<String>,
}

/// `m` with each set cut down to the keys of `m`.
pub open spec fn restrict_to_keys(m: Map<Seq<char>, Set<Seq<char>>>) -> Map<Seq<char>, Set<Seq<char>>> {
    Map::new(|k: Seq<char>| m.contains_key(k), |k: Seq<char>| m[k].filter(|d: Seq<char>| m.contains_key(d)))
}

/// The names of a table's columns.
pub open spec fn table_column_names(cols: Seq<TableColumn>) -> Set<Seq<char>> {
    cols.map_values(|c: TableColumn| c.name@).to_set()
}

/// Each computed column with an expression, mapped to the columns (among `names`) that it
/// reads and its expression; a later column of the same name replaces an earlier one.
pub open spec fn computed_entries(cols: Seq<TableColumn>, names: Set<Seq<char>>) -> Map<Seq<char>, (Set<Seq<char>>, Expression)>
    decreases cols.len(),
{
    if cols.len() == 0 {
        Map::empty()
    } else {
        let earlier = computed_entries(cols.drop_last(), names);
        let c = cols.last();
        if c.is_computed && c.computed_expression is Some {
            let e = c.computed_expression->0;
            earlier.insert(c.name@, (expr_deps(e, names), e))
        } else {
            earlier
        }
    }
}

/// The columns each computed column reads.
pub open spec fn reads_of(entries: Map<Seq<char>, (Set<Seq<char>>, Expression)>) -> Map<Seq<char>, Set<Seq<char>>> {
    Map::new(|k: Seq<char>| entries.contains_key(k), |k: Seq<char>| entries[k].0)
}

impl<'a> DependencyGraph<'a> {
    pub open spec fn wf(&self) -> bool {
        &&& self.dependencies.wf()
        &&& forall|k: Seq<char>| #[trigger] self.dependencies@.contains_key(k) ==> self.dependencies@[k].depends_on.wf()
    }

    /// Each computed column with the columns it reads.
    pub open spec fn reads(&self) -> Map<Seq<char>, Set<Seq<char>>> {
        Map::new(|k: Seq<char>| self.dependencies@.contains_key(k), |k: Seq<char>| self.dependencies@[k].depends_on@)
    }

    /// Each computed column with the computed columns it reads: the order constraints.
    pub open spec fn order_graph(&self) -> Map<Seq<char>, Set<Seq<char>>> {
        restrict_to_keys(self.reads())
    }

    /// The columns among `column_names` that `expr` reads.
    pub fn extract_column_dependencies(expr: &Expression, column_names: &NameSet) -> (r: Result<NameSet, DependencyError>)
        requires
            column_names.wf(),
        ensures
            r matches Ok(deps) && deps.wf() && deps@ == expr_deps(*expr, column_names@),
    {
        let mut deps = NameSet::new();
        extract_dependencies_recursive(expr, &mut deps, column_names);
        assert(deps@ =~= expr_deps(*expr, column_names@));
        Ok(deps)
    }

    /// A graph without computed columns.
    pub fn new() -> (r: DependencyGraph<'a>)
        ensures
            r.wf(),
            r.dependencies@ == Map::<Seq<char>, ComputedColumnDependency<'a>>::empty(),
            r.evaluation_order@.len() == 0,
    {
        DependencyGraph { dependencies: StrMap::new(), evaluation_order: Vec::new() }
    }

    /// An order in which each computed column comes after the computed columns it reads; it
    /// exists exactly when those reads form no cycle. Otherwise the columns that cannot be
    /// ordered are reported: each of them reads another of them.
    pub fn topological_sort(&self) -> (r: Result<Vec<String>, DependencyError>)
        requires
            self.wf(),
        ensures
            r is Ok <==> !has_cycle_spec(self.order_graph()),
            r matches Ok(order) ==> topological_order(self.order_graph(), string_views(order@))
                && string_views(order@).to_set() == self.order_graph().dom(),
            r matches Err(e) ==> (e matches DependencyError::CircularDependency(nodes)
                && string_views(nodes@).no_duplicates()
                && string_views(nodes@).len() > 0
                && string_views(nodes@).to_set().subset_of(self.order_graph().dom())
                && stuck_set(self.order_graph(), string_views(nodes@).to_set())),
    {
        let ghost og = self.order_graph();
        let mut g: StrMap<NameSet> = StrMap::new();
        let n = self.dependencies.entry_count();
        let mut i: usize = 0;
        proof {
            self.dependencies.lemma_dom();
        }
        while i < n
            invariant
                self.wf(),
                og == self.order_graph(),
                n == self.dependencies.key_seq().len(),
                i <= n,
                g.wf(),
                forall|k: Seq<char>| #[trigger] g@.contains_key(k) ==> g@[k].wf(),
                forall|k: Seq<char>| #[trigger] g@.contains_key(k) <==> exists|j: int| 0 <= j < i && self.dependencies.key_seq()[j] == k,
                forall|k: Seq<char>| #[trigger] g@.contains_key(k) ==> g@[k]@ == og[k],
            decreases n - i,
        {
            let name = self.dependencies.key_at(i);
            let entry = self.dependencies.value_at(i);
            let reads = &entry.depends_on;
            let m = reads.len();
            let mut kept = NameSet::new();
            let mut j: usize = 0;
            let ghost key = self.dependencies.key_seq()[i as int];
            proof {
                reads.lemma_ordered();
            }
            while j < m
                invariant
                    self.wf(),
                    self.dependencies@.contains_key(key),
                    *reads == self.dependencies@[key].depends_on,
                    reads.wf(),
                    m == reads.ordered().len(),
                    j <= m,
                    kept.wf(),
                    forall|d: Seq<char>| #[trigger] kept@.contains(d) <==> (exists|t: int| 0 <= t < j && reads.ordered()[t] == d)
                        && self.dependencies@.contains_key(d),
                decreases m - j,
            {
                let d = reads.item_at(j);
                if self.dependencies.contains_key(d.as_str()) {
                    kept.insert(d.clone());
                }
                j = j + 1;
            }
            proof {
                reads.lemma_ordered();
                assert(kept@ =~= og[key]) by {
                    assert forall|d: Seq<char>| kept@.contains(d) <==> og[key].contains(d) by {
                        if og[key].contains(d) {
                            assert(reads@.contains(d));
                            assert(reads.ordered().to_set().contains(d));
                            let t = choose|t: int| 0 <= t < reads.ordered().len() && reads.ordered()[t] == d;
                        }
                        if kept@.contains(d) {
                            let t = choose|t: int| 0 <= t < j && reads.ordered()[t] == d;
                            assert(reads@.contains(reads.ordered()[t]));
                        }
                    }
                }
            }
            g.insert(name.clone(), kept);
            proof {
                assert forall|k: Seq<char>| #[trigger] g@.contains_key(k) <==> exists|t: int| 0 <= t < i + 1 && self.dependencies.key_seq()[t] == k by {
                    if g@.contains_key(k) && k != key {
                        let t = choose|t: int| 0 <= t < i && self.dependencies.key_seq()[t] == k;
                    }
                    if exists|t: int| 0 <= t < i + 1 && self.dependencies.key_seq()[t] == k {
                        let t = choose|t: int| 0 <= t < i + 1 && self.dependencies.key_seq()[t] == k;
                        if t < i {
                            assert(exists|t2: int| 0 <= t2 < i && self.dependencies.key_seq()[t2] == k);
                        }
                    }
                }
            }
            i = i + 1;
        }
        proof {
            assert(graph_view(&g) =~= og) by {
                assert forall|k: Seq<char>| graph_view(&g).contains_key(k) <==> og.contains_key(k) by {
                    if og.contains_key(k) {
                        assert(self.dependencies.key_seq().to_set().contains(k));
                        let t = choose|t: int| 0 <= t < self.dependencies.key_seq().len() && self.dependencies.key_seq()[t] == k;
                    }
                    if g@.contains_key(k) {
                        let t = choose|t: int| 0 <= t < n && self.dependencies.key_seq()[t] == k;
                        assert(self.dependencies@.contains_key(self.dependencies.key_seq()[t]));
                    }
                }
            }
            assert forall|x: Seq<char>, y: Seq<char>| #[trigger] crate::graph::edge(graph_view(&g), x, y) implies graph_view(&g).contains_key(y) by {
                assert(og[x].contains(y));
            }
        }
        let (order, stuck) = topological_order_of(&g);
        if stuck.len() == 0 {
            proof {
                assert forall|k: Seq<char>| og.contains_key(k) implies string_views(order@).contains(k) by {
                    if !string_views(order@).contains(k) {
                        assert(string_views(stuck@).contains(k));
                    }
                }
                lemma_order_excludes_cycle(og, string_views(order@));
                assert(string_views(order@).to_set() =~= og.dom());
            }
            Ok(order)
        } else {
            proof {
                let sv = string_views(stuck@);
                assert(sv.contains(sv[0]));
                sv.unique_seq_to_set();
                assert(sv.to_set().contains(sv[0]));
                lemma_stuck_set_has_cycle(og, sv.to_set());
                assert forall|k: Seq<char>| sv.to_set().contains(k) implies og.dom().contains(k) by {
                    assert(sv.contains(k));
                }
            }
            Err(DependencyError::CircularDependency(stuck))
        }
    }

    /// The dependency graph of a table's computed columns, with an evaluation order; fails
    /// exactly when the computed columns read each other in a cycle.
    pub fn build_from_table(table: &'a TableDef) -> (r: Result<DependencyGraph<'a>, DependencyError>)
        ensures
            ({
                let entries = computed_entries(table.columns@, table_column_names(table.columns@));
                let og = restrict_to_keys(reads_of(entries));
                &&& (r is Ok <==> !has_cycle_spec(og))
                &&& (r matches Ok(g) ==> {
                    &&& g.wf()
                    &&& g.dependencies@.dom() == entries.dom()
                    &&& forall|k: Seq<char>| #[trigger] entries.contains_key(k) ==> g.dependencies@[k].column_name@ == k
                        && g.dependencies@[k].depends_on@ == entries[k].0
                        && *g.dependencies@[k].expression == entries[k].1
                    &&& topological_order(og, string_views(g.evaluation_order@))
                    &&& string_views(g.evaluation_order@).to_set() == og.dom()
                })
                &&& (r matches Err(e) ==> (e matches DependencyError::CircularDependency(nodes)
                    && string_views(nodes@).no_duplicates()
                    && string_views(nodes@).len() > 0
                    && string_views(nodes@).to_set().subset_of(og.dom())
                    && stuck_set(og, string_views(nodes@).to_set())))
            }),
    {
        let ghost cols = table.columns@;
        let mut names = NameSet::new();
        let mut i: usize = 0;
        while i < table.columns.len()
            invariant
                cols == table.columns@,
                i <= cols.len(),
                names.wf(),
                names@ == table_column_names(cols.take(i as int)),
            decreases cols.len() - i,
        {
            names.insert(table.columns[i].name.clone());
            proof {
                let prev = cols.take(i as int).map_values(|c: TableColumn| c.name@);
                assert(cols.take(i + 1).map_values(|c: TableColumn| c.name@) =~= prev.push(cols[i as int].name@));
                prev.lemma_push_to_set_commute(cols[i as int].name@);
                assert(names@ =~= table_column_names(cols.take(i + 1)));
            }
            i = i + 1;
        }
        assert(cols.take(i as int) =~= cols);
        let ghost all_names = table_column_names(cols);
        let mut graph = DependencyGraph::new();
        let mut i: usize = 0;
        assert(cols.take(0) =~= Seq::<TableColumn>::empty());
        while i < table.columns.len()
            invariant
                cols == table.columns@,
                i <= cols.len(),
                names.wf(),
                names@ == all_names,
                graph.wf(),
                graph.dependencies@.dom() == computed_entries(cols.take(i as int), all_names).dom(),
                forall|k: Seq<char>| #[trigger] computed_entries(cols.take(i as int), all_names).contains_key(k) ==> graph.dependencies@[k].column_name@ == k
                    && graph.dependencies@[k].depends_on@ == computed_entries(cols.take(i as int), all_names)[k].0
                    && *graph.dependencies@[k].expression == computed_entries(cols.take(i as int), all_names)[k].1,
            decreases cols.len() - i,
        {
            let column = &table.columns[i];
            assert(cols.take(i + 1).drop_last() =~= cols.take(i as int));
            assert(cols.take(i + 1).last() == cols[i as int]);
            if column.is_computed {
                match &column.computed_expression {
                    Some(expr) => {
                        let deps = match Self::extract_column_dependencies(expr, &names) {
                            Ok(d) => d,
                            Err(e) => {
                                assert(false);
                                return Err(e);
                            },
                        };
                        let entry = ComputedColumnDependency {
                            column_name: column.name.clone(),
                            depends_on: deps,
                            expression: expr,
                        };
                        graph.dependencies.insert(column.name.clone(), entry);
                    },
                    None => {},
                }
            }
            proof {
                let before = computed_entries(cols.take(i as int), all_names);
                let after = computed_entries(cols.take(i + 1), all_names);
                assert(graph.dependencies@.dom() =~= after.dom());
            }
            i = i + 1;
        }
        assert(cols.take(i as int) =~= cols);
        proof {
            let entries = computed_entries(cols, all_names);
            assert(graph.reads() =~= reads_of(entries));
        }
        match graph.topological_sort() {
            Ok(order) => {
                graph.evaluation_order = order;
                Ok(graph)
            },
            Err(e) => Err(e),
        }
    }

    /// The columns a computed column reads, if it is a computed column.
    pub fn get_dependencies(&self, column_name: &str) -> (r: Option<&NameSet>)
        requires
            self.wf(),
        ensures
            match r {
                Some(d) => self.dependencies@.contains_key(column_name@) && *d == self.dependencies@[column_name@].depends_on,
                None => !self.dependencies@.contains_key(column_name@),
            },
    {
        match self.dependencies.get(column_name) {
            Some(dep) => Some(&dep.depends_on),
            None => None,
        }
    }

    /// Whether the column is a computed column.
    pub fn is_computed_column(&self, column_name: &str) -> (r: bool)
        requires
            self.wf(),
        ensures
            r == self.dependencies@.contains_key(column_name@),
    {
        self.dependencies.contains_key(column_name)
    }

    /// The computed columns that read `column_name`.
    pub fn get_dependents(&self, column_name: &str) -> (r: Vec<String>)
        requires
            self.wf(),
        ensures
            string_views(r@).no_duplicates(),
            forall|c: Seq<char>| string_views(r@).contains(c) <==> self.dependencies@.contains_key(c)
                && self.dependencies@[c].depends_on@.contains(column_name@),
    {
        let mut dependents: Vec<String> = Vec::new();
        let n = self.dependencies.entry_count();
        let mut i: usize = 0;
        proof {
            self.dependencies.lemma_dom();
            assert(string_views(dependents@) =~= Seq::<Seq<char>>::empty());
        }
        while i < n
            invariant
                self.wf(),
                n == self.dependencies.key_seq().len(),
                self.dependencies.key_seq().no_duplicates(),
                i <= n,
                string_views(dependents@).no_duplicates(),
                forall|c: Seq<char>| #[trigger] string_views(dependents@).contains(c) <==> (exists|j: int| 0 <= j < i
                    && self.dependencies.key_seq()[j] == c) && self.dependencies@[c].depends_on@.contains(column_name@),
            decreases n - i,
        {
            let entry = self.dependencies.value_at(i);
            let ghost key = self.dependencies.key_seq()[i as int];
            if entry.depends_on.contains(column_name) {
                let ghost before = string_views(dependents@);
                let name = self.dependencies.key_at(i).clone();
                dependents.push(name);
                proof {
                    let after = string_views(dependents@);
                    assert(after =~= before.push(key));
                    assert(!before.contains(key)) by {
                        if before.contains(key) {
                            let j = choose|j: int| 0 <= j < i && self.dependencies.key_seq()[j] == key;
                        }
                    }
                    assert(after.no_duplicates()) by {
                        assert forall|a: int, b: int| 0 <= a < b < after.len() implies after[a] != after[b] by {
                            if b == before.len() {
                                assert(before.contains(after[a]));
                            }
                        }
                    }
                    assert forall|c: Seq<char>| #[trigger] after.contains(c) <==> (exists|j: int| 0 <= j < i + 1
                        && self.dependencies.key_seq()[j] == c) && self.dependencies@[c].depends_on@.contains(column_name@) by {
                        if after.contains(c) {
                            if c == key {
                                assert(self.dependencies.key_seq()[i as int] == c);
                            } else {
                                let m = choose|m: int| 0 <= m < after.len() && after[m] == c;
                                assert(before[m] == c);
                                assert(before.contains(c));
                            }
                        }
                        if (exists|j: int| 0 <= j < i + 1 && self.dependencies.key_seq()[j] == c) && self.dependencies@[c].depends_on@.contains(column_name@) {
                            let j = choose|j: int| 0 <= j < i + 1 && self.dependencies.key_seq()[j] == c;
                            if j == i as int {
                                assert(after[before.len() as int] == c);
                            } else {
                                assert(before.contains(c));
                                let m = choose|m: int| 0 <= m < before.len() && before[m] == c;
                                assert(after[m] == c);
                            }
                        }
                    }
                }
            } else {
                proof {
                    let before = string_views(dependents@);
                    assert forall|c: Seq<char>| #[trigger] before.contains(c) <==> (exists|j: int| 0 <= j < i + 1
                        && self.dependencies.key_seq()[j] == c) && self.dependencies@[c].depends_on@.contains(column_name@) by {
                        if (exists|j: int| 0 <= j < i + 1 && self.dependencies.key_seq()[j] == c) && self.dependencies@[c].depends_on@.contains(column_name@) {
                            let j = choose|j: int| 0 <= j < i + 1 && self.dependencies.key_seq()[j] == c;
                            if j == i as int {
                                assert(false);
                            }
                            assert(exists|j2: int| 0 <= j2 < i && self.dependencies.key_seq()[j2] == c);
                        }
                    }
                }
            }
            i = i + 1;
        }
        proof {
            assert forall|c: Seq<char>| string_views(dependents@).contains(c) <==> self.dependencies@.contains_key(c)
                && self.dependencies@[c].depends_on@.contains(column_name@) by {
                if self.dependencies@.contains_key(c) {
                    assert(self.dependencies.key_seq().to_set().contains(c));
                    let j = choose|j: int| 0 <= j < n && self.dependencies.key_seq()[j] == c;
                }
                if string_views(dependents@).contains(c) {
                    let j = choose|j: int| 0 <= j < i && self.dependencies.key_seq()[j] == c;
                    assert(self.dependencies@.contains_key(self.dependencies.key_seq()[j]));
                }
            }
        }
        dependents
    }

    /// The order in which to evaluate the computed columns.
    pub fn get_evaluation_order(&self) -> (r: &Vec<String>)
        ensures
            r@ == self.evaluation_order@,
    {
        &self.evaluation_order
    }
}

proof fn lemma_args_deps_members(s: Seq<Argument>, cols: Set<Seq<char>>)
    ensures
        forall|x: Seq<char>| #[trigger] args_deps(s, cols).contains(x) <==> exists|i: int|
            0 <= i < s.len() && #[trigger] expr_deps(s[i].value, cols).contains(x),
    decreases s.len(),
{
    if s.len() > 0 {
        let rest = s.drop_last();
        lemma_args_deps_members(rest, cols);
        assert forall|x: Seq<char>| #[trigger] args_deps(s, cols).contains(x) <==> exists|i: int|
            0 <= i < s.len() && #[trigger] expr_deps(s[i].value, cols).contains(x) by {
            if args_deps(s, cols).contains(x) {
                if args_deps(rest, cols).contains(x) {
                    let i = choose|i: int| 0 <= i < rest.len() && #[trigger] expr_deps(rest[i].value, cols).contains(x);
                    assert(s[i] == rest[i]);
                } else {
                    assert(expr_deps(s[s.len() - 1].value, cols).contains(x));
                }
            }
            if exists|i: int| 0 <= i < s.len() && #[trigger] expr_deps(s[i].value, cols).contains(x) {
                let i = choose|i: int| 0 <= i < s.len() && #[trigger] expr_deps(s[i].value, cols).contains(x);
                if i < rest.len() {
                    assert(s[i] == rest[i]);
                    assert(args_deps(rest, cols).contains(x));
                } else {
                    assert(s[i] == s.last());
                }
            }
        }
    }
}

proof fn lemma_exprs_deps_members(s: Seq<Expression>, cols: Set<Seq<char>>)
    ensures
        forall|x: Seq<char>| #[trigger] exprs_deps(s, cols).contains(x) <==> exists|i: int|
            0 <= i < s.len() && #[trigger] expr_deps(s[i], cols).contains(x),
    decreases s.len(),
{
    if s.len() > 0 {
        let rest = s.drop_last();
        lemma_exprs_deps_members(rest, cols);
        assert forall|x: Seq<char>| #[trigger] exprs_deps(s, cols).contains(x) <==> exists|i: int|
            0 <= i < s.len() && #[trigger] expr_deps(s[i], cols).contains(x) by {
            if exprs_deps(s, cols).contains(x) {
                if exprs_deps(rest, cols).contains(x) {
                    let i = choose|i: int| 0 <= i < rest.len() && #[trigger] expr_deps(rest[i], cols).contains(x);
                    assert(s[i] == rest[i]);
                } else {
                    assert(expr_deps(s[s.len() - 1], cols).contains(x));
                }
            }
            if exists|i: int| 0 <= i < s.len() && #[trigger] expr_deps(s[i], cols).contains(x) {
                let i = choose|i: int| 0 <= i < s.len() && #[trigger] expr_deps(s[i], cols).contains(x);
                if i < rest.len() {
                    assert(s[i] == rest[i]);
                    assert(exprs_deps(rest, cols).contains(x));
                } else {
                    assert(s[i] == s.last());
                }
            }
        }
    }
}

/// A name read as a value is a dependency exactly when it is one of the columns.
pub proof fn law_identifier_is_read(name: String, cols: Set<Seq<char>>)
    ensures
        forall|x: Seq<char>| #[trigger] expr_deps(Expression::Identifier(name), cols).contains(x) <==> (x
            == name@ && cols.contains(x)),
{
}

/// A call reads what its arguments read, and nothing else: the columns that occur in any
/// argument are dependencies, the function it calls is not.
pub proof fn law_call_reads_its_arguments(
    function: Box<Expression>,
    type_args: Vec<crate::ast::Type>,
    arguments: Vec<Argument>,
    cols: Set<Seq<char>>,
)
    ensures
        forall|x: Seq<char>| #[trigger] expr_deps(Expression::Call { function, type_args, arguments }, cols).contains(x)
            <==> exists|i: int| 0 <= i < arguments@.len() && #[trigger] expr_deps(arguments@[i].value, cols).contains(x),
{
    let e = Expression::Call { function, type_args, arguments };
    lemma_args_deps_members(arguments@, cols);
    assert(expr_deps(e, cols) == args_deps(arguments@, cols));
    assert forall|x: Seq<char>| #[trigger] expr_deps(e, cols).contains(x) <==> exists|i: int|
        0 <= i < arguments@.len() && #[trigger] expr_deps(arguments@[i].value, cols).contains(x) by {
        assert(args_deps(arguments@, cols).contains(x) <==> exists|i: int|
            0 <= i < arguments@.len() && #[trigger] expr_deps(arguments@[i].value, cols).contains(x));
    }
}

/// A compound expression reads what each of its operands reads: both sides of a binary
/// operation, the operand of a unary one, a cast, a field access, `?` or an unwrap, the parts
/// of a conditional expression and of a range, the object and every index of an indexing,
/// and every item of a tuple.
pub proof fn law_operands_are_read(e: Expression, cols: Set<Seq<char>>)
    ensures
        e matches Expression::BinaryOp { left, right, .. } ==> expr_deps(*left, cols).subset_of(expr_deps(e, cols))
            && expr_deps(*right, cols).subset_of(expr_deps(e, cols)),
        e matches Expression::UnaryOp { operand, .. } ==> expr_deps(*operand, cols).subset_of(expr_deps(e, cols)),
        e matches Expression::Cast { value, .. } ==> expr_deps(*value, cols).subset_of(expr_deps(e, cols)),
        e matches Expression::FieldAccess { object, .. } ==> expr_deps(*object, cols).subset_of(expr_deps(e, cols)),
        e matches Expression::Question(inner) ==> expr_deps(*inner, cols).subset_of(expr_deps(e, cols)),
        e matches Expression::Unwrap(inner) ==> expr_deps(*inner, cols).subset_of(expr_deps(e, cols)),
        e matches Expression::IfExpr { condition, then_expr, else_expr } ==> expr_deps(*condition, cols).subset_of(
            expr_deps(e, cols),
        ) && expr_deps(*then_expr, cols).subset_of(expr_deps(e, cols)) && (else_expr matches Some(x)
            ==> expr_deps(*x, cols).subset_of(expr_deps(e, cols))),
        e matches Expression::Range { start, end, step } ==> expr_deps(*start, cols).subset_of(expr_deps(e, cols))
            && expr_deps(*end, cols).subset_of(expr_deps(e, cols)) && (step matches Some(x) ==> expr_deps(
            *x,
            cols,
        ).subset_of(expr_deps(e, cols))),
        e matches Expression::Index { object, indices } ==> expr_deps(*object, cols).subset_of(expr_deps(e, cols))
            && forall|i: int| 0 <= i < indices@.len() ==> (#[trigger] expr_deps(indices@[i], cols)).subset_of(
            expr_deps(e, cols),
        ),
        e matches Expression::Tuple(items) ==> forall|i: int| 0 <= i < items@.len() ==> (#[trigger] expr_deps(
            items@[i],
            cols,
        )).subset_of(expr_deps(e, cols)),
{
    match e {
        Expression::Index { object, indices } => {
            lemma_exprs_deps_members(indices@, cols);
            assert forall|i: int| 0 <= i < indices@.len() implies (#[trigger] expr_deps(indices@[i], cols)).subset_of(
                expr_deps(e, cols),
            ) by {
                assert forall|x: Seq<char>| expr_deps(indices@[i], cols).contains(x) implies expr_deps(e, cols).contains(x) by {
                    assert(exprs_deps(indices@, cols).contains(x));
                }
            }
        },
        Expression::Tuple(items) => {
            lemma_exprs_deps_members(items@, cols);
            assert forall|i: int| 0 <= i < items@.len() implies (#[trigger] expr_deps(items@[i], cols)).subset_of(
                expr_deps(e, cols),
            ) by {
                assert forall|x: Seq<char>| expr_deps(items@[i], cols).contains(x) implies expr_deps(e, cols).contains(x) by {
                    assert(exprs_deps(items@, cols).contains(x));
                }
            }
        },
        _ => {},
    }
}

proof fn lemma_expr_deps_cols(e: Expression, cols: Set<Seq<char>>)
    ensures
        expr_deps(e, cols).subset_of(cols),
    decreases e,
{
    match e {
        Expression::BinaryOp { left, right, .. } => {
            lemma_expr_deps_cols(*left, cols);
            lemma_expr_deps_cols(*right, cols);
        },
        Expression::UnaryOp { operand, .. } => lemma_expr_deps_cols(*operand, cols),
        Expression::Cast { value, .. } => lemma_expr_deps_cols(*value, cols),
        Expression::Call { arguments, .. } => lemma_args_deps_cols(arguments@, cols),
        Expression::FieldAccess { object, .. } => lemma_expr_deps_cols(*object, cols),
        Expression::Index { object, indices } => {
            lemma_expr_deps_cols(*object, cols);
            lemma_exprs_deps_cols(indices@, cols);
        },
        Expression::If { condition, then_branch, else_branch } => {
            lemma_expr_deps_cols(*condition, cols);
            lemma_stmts_deps_cols(then_branch@, cols);
            match else_branch {
                Some(stmts) => lemma_stmts_deps_cols(stmts@, cols),
                None => {},
            }
        },
        Expression::IfExpr { condition, then_expr, else_expr } => {
            lemma_expr_deps_cols(*condition, cols);
            lemma_expr_deps_cols(*then_expr, cols);
            match else_expr {
                Some(x) => lemma_expr_deps_cols(*x, cols),
                None => {},
            }
        },
        Expression::Block { statements } => lemma_stmts_deps_cols(statements@, cols),
        Expression::UnsafeBlock { statements } => lemma_stmts_deps_cols(statements@, cols),
        Expression::Tuple(items) => lemma_exprs_deps_cols(items@, cols),
        Expression::Match { value, arms } => {
            lemma_expr_deps_cols(*value, cols);
            lemma_arms_deps_cols(arms@, cols);
        },
        Expression::StructLiteral { fields, .. } => lemma_fields_deps_cols(fields@, cols),
        Expression::ArrayNew { dimensions, .. } => lemma_exprs_deps_cols(dimensions@, cols),
        Expression::Matrix { rows } => lemma_rows_deps_cols(rows@, cols),
        Expression::Range { start, end, step } => {
            lemma_expr_deps_cols(*start, cols);
            lemma_expr_deps_cols(*end, cols);
            match step {
                Some(x) => lemma_expr_deps_cols(*x, cols),
                None => {},
            }
        },
        Expression::Question(inner) => lemma_expr_deps_cols(*inner, cols),
        Expression::Unwrap(inner) => lemma_expr_deps_cols(*inner, cols),
        _ => {},
    }
}

proof fn lemma_exprs_deps_cols(s: Seq<Expression>, cols: Set<Seq<char>>)
    ensures
        exprs_deps(s, cols).subset_of(cols),
    decreases s,
{
    if s.len() > 0 {
        lemma_exprs_deps_cols(s.drop_last(), cols);
        lemma_expr_deps_cols(s.last(), cols);
    }
}

proof fn lemma_args_deps_cols(s: Seq<Argument>, cols: Set<Seq<char>>)
    ensures
        args_deps(s, cols).subset_of(cols),
    decreases s,
{
    if s.len() > 0 {
        lemma_args_deps_cols(s.drop_last(), cols);
        lemma_expr_deps_cols(s.last().value, cols);
    }
}

proof fn lemma_arms_deps_cols(s: Seq<MatchArm>, cols: Set<Seq<char>>)
    ensures
        arms_deps(s, cols).subset_of(cols),
    decreases s,
{
    if s.len() > 0 {
        lemma_arms_deps_cols(s.drop_last(), cols);
        lemma_expr_deps_cols(s.last().pattern, cols);
        lemma_expr_deps_cols(s.last().body, cols);
    }
}

proof fn lemma_fields_deps_cols(s: Seq<(String, Expression)>, cols: Set<Seq<char>>)
    ensures
        fields_deps(s, cols).subset_of(cols),
    decreases s,
{
    if s.len() > 0 {
        lemma_fields_deps_cols(s.drop_last(), cols);
        lemma_expr_deps_cols(s.last().1, cols);
    }
}

proof fn lemma_rows_deps_cols(s: Seq<Vec<Expression>>, cols: Set<Seq<char>>)
    ensures
        rows_deps(s, cols).subset_of(cols),
    decreases s,
{
    if s.len() > 0 {
        lemma_rows_deps_cols(s.drop_last(), cols);
        lemma_exprs_deps_cols(s.last()@, cols);
    }
}

proof fn lemma_stmt_deps_cols(st: Statement, cols: Set<Seq<char>>)
    ensures
        stmt_deps(st, cols).subset_of(cols),
    decreases st,
{
    match st {
        Statement::VariableDecl { value, .. } => lemma_expr_deps_cols(value, cols),
        Statement::ConstDecl { value, .. } => match value {
            ConstValue::Expression(x) => lemma_expr_deps_cols(x, cols),
            _ => {},
        },
        Statement::Assignment { target, value, .. } => {
            lemma_expr_deps_cols(target, cols);
            lemma_expr_deps_cols(value, cols);
        },
        Statement::Expression(x) => lemma_expr_deps_cols(x, cols),
        Statement::Return(Some(x)) => lemma_expr_deps_cols(x, cols),
        Statement::Break(Some(x)) => lemma_expr_deps_cols(x, cols),
        Statement::ForLoop { iterable, body, .. } => {
            lemma_expr_deps_cols(iterable, cols);
            lemma_stmts_deps_cols(body@, cols);
        },
        _ => {},
    }
}

proof fn lemma_stmts_deps_cols(s: Seq<Statement>, cols: Set<Seq<char>>)
    ensures
        stmts_deps(s, cols).subset_of(cols),
    decreases s,
{
    if s.len() > 0 {
        lemma_stmts_deps_cols(s.drop_last(), cols);
        lemma_stmt_deps_cols(s.last(), cols);
    }
}

/// Only columns are dependencies: whatever an expression reads, its dependencies are among
/// the table's columns.
pub proof fn law_dependencies_are_columns(e: Expression, cols: Set<Seq<char>>)
    ensures
        expr_deps(e, cols).subset_of(cols),
{
    lemma_expr_deps_cols(e, cols);
}

} // verus!
