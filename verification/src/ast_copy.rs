//! Copies of syntax trees, built node by node.
use vstd::prelude::*;

use crate::ast::{
    Argument, Attribute, ConstValue, Expression, FieldProjection, FunctionBody, JoinClause, MatchArm, Parameter,
    QuerySpec, ShaderField, Statement, SystemDef, SystemParameter, TableAnnotation, TableColumn, TableDef, Type,
    TypeParam, Literal, IntegerLiteral, ComposeDef, ComposeEntry, ComposeNode, DatabaseDef, DatabaseEntry,
};

verus! {

// What it means for one tree to be a copy of another: the same shape, with equal
// names, operators, literals and flags at every node.

pub open spec fn type_copied(a: Type, b: Type) -> bool
    decreases a,
{
    match a {
        Type::Unit => b is Unit,
        Type::Identifier { name, type_args } => b matches Type::Identifier { name: n, type_args: t }
            && name == n && types_copied(type_args, t),
        Type::Pointer { is_mutable, pointee } => b matches Type::Pointer { is_mutable: m, pointee: p }
            && is_mutable == m && type_copied(*pointee, *p),
        Type::RawPointer { pointee } => b matches Type::RawPointer { pointee: p } && type_copied(*pointee, *p),
        Type::Optional { inner } => b matches Type::Optional { inner: p } && type_copied(*inner, *p),
        Type::Result { inner } => b matches Type::Result { inner: p } && type_copied(*inner, *p),
        Type::Tuple(items) => b matches Type::Tuple(t) && types_copied(items, t),
        Type::Matrix { element_type, dimensions } => b matches Type::Matrix { element_type: e, dimensions: d }
            && type_copied(*element_type, *e) && dimensions@ == d@,
        Type::Function { parameters, return_type } => b matches Type::Function { parameters: p, return_type: t }
            && types_copied(parameters, p) && type_copied(*return_type, *t),
        Type::Struct { fields } => b matches Type::Struct { fields: f } && named_types_copied(fields, f),
        Type::Enum { variants, order } => b matches Type::Enum { variants: v, order: o }
            && variants_copied(variants, v) && order@ == o@,
        Type::Trait { associated_types, methods } => b matches Type::Trait { associated_types: t, methods: m }
            && associated_types@ == t@ && named_types_copied(methods, m),
        Type::Reference { is_mutable, inner } => b matches Type::Reference { is_mutable: m, inner: p }
            && is_mutable == m && type_copied(*inner, *p),
    }
}

pub open spec fn types_copied(a: Vec<Type>, b: Vec<Type>) -> bool
    decreases a,
{
    a.len() == b.len() && forall|i: int| 0 <= i < a.len() ==> type_copied(#[trigger] a[i], b[i])
}

pub open spec fn named_types_copied(a: Vec<(String, Type)>, b: Vec<(String, Type)>) -> bool
    decreases a,
{
    a.len() == b.len() && forall|i: int|
        0 <= i < a.len() ==> (#[trigger] a[i]).0 == b[i].0 && type_copied(a[i].1, b[i].1)
}

pub open spec fn opt_type_copied(a: Option<Type>, b: Option<Type>) -> bool
    decreases a,
{
    match a {
        Some(t) => b matches Some(u) && type_copied(t, u),
        None => b is None,
    }
}

pub open spec fn variants_copied(a: Vec<(String, Option<Type>)>, b: Vec<(String, Option<Type>)>) -> bool
    decreases a,
{
    a.len() == b.len() && forall|i: int|
        0 <= i < a.len() ==> (#[trigger] a[i]).0 == b[i].0 && opt_type_copied(a[i].1, b[i].1)
}

pub open spec fn expr_copied(a: Expression, b: Expression) -> bool
    decreases a,
{
    match a {
        Expression::Literal(lit) => b matches Expression::Literal(x) && x == lit,
        Expression::Identifier(name) => b matches Expression::Identifier(x) && x == name,
        Expression::BinaryOp { left, operator, right } => b matches Expression::BinaryOp { left: l, operator: o, right: r }
            && operator == o && expr_copied(*left, *l) && expr_copied(*right, *r),
        Expression::UnaryOp { operator, operand } => b matches Expression::UnaryOp { operator: o, operand: x }
            && operator == o && expr_copied(*operand, *x),
        Expression::Cast { value, to_type } => b matches Expression::Cast { value: v, to_type: t }
            && expr_copied(*value, *v) && type_copied(to_type, t),
        Expression::Call { function, type_args, arguments } => b matches Expression::Call { function: f, type_args: t, arguments: x }
            && expr_copied(*function, *f) && types_copied(type_args, t) && arguments_copied(arguments, x),
        Expression::FieldAccess { object, field } => b matches Expression::FieldAccess { object: o, field: f }
            && expr_copied(*object, *o) && field == f,
        Expression::Index { object, indices } => b matches Expression::Index { object: o, indices: x }
            && expr_copied(*object, *o) && exprs_copied(indices, x),
        Expression::If { condition, then_branch, else_branch } => b matches Expression::If { condition: c, then_branch: t, else_branch: e }
            && expr_copied(*condition, *c) && stmts_copied(then_branch, t) && opt_stmts_copied(else_branch, e),
        Expression::IfExpr { condition, then_expr, else_expr } => b matches Expression::IfExpr { condition: c, then_expr: t, else_expr: e }
            && expr_copied(*condition, *c) && expr_copied(*then_expr, *t) && opt_boxed_expr_copied(else_expr, e),
        Expression::Loop { body } => b matches Expression::Loop { body: x } && stmts_copied(body, x),
        Expression::Block { statements } => b matches Expression::Block { statements: x } && stmts_copied(statements, x),
        Expression::UnsafeBlock { statements } => b matches Expression::UnsafeBlock { statements: x }
            && stmts_copied(statements, x),
        Expression::Function { is_async, type_params, parameters, return_type, body } => b matches Expression::Function {
            is_async: s,
            type_params: t,
            parameters: p,
            return_type: r,
            body: x,
        } && is_async == s && type_params_copied(type_params, t) && parameters_copied(parameters, p)
            && opt_type_copied(return_type, r) && function_body_copied(body, x),
        Expression::Tuple(items) => b matches Expression::Tuple(x) && exprs_copied(items, x),
        Expression::Match { value, arms } => b matches Expression::Match { value: v, arms: x }
            && expr_copied(*value, *v) && match_arms_copied(arms, x),
        Expression::StructLiteral { struct_name, fields } => b matches Expression::StructLiteral { struct_name: n, fields: f }
            && struct_name == n && struct_fields_copied(fields, f),
        Expression::ArrayNew { element_type, dimensions } => b matches Expression::ArrayNew { element_type: t, dimensions: d }
            && type_copied(element_type, t) && exprs_copied(dimensions, d),
        Expression::Matrix { rows } => b matches Expression::Matrix { rows: x } && rows_copied(rows, x),
        Expression::Range { start, end, step } => b matches Expression::Range { start: s, end: e, step: x }
            && expr_copied(*start, *s) && expr_copied(*end, *e) && opt_boxed_expr_copied(step, x),
        Expression::Question(inner) => b matches Expression::Question(x) && expr_copied(*inner, *x),
        Expression::Unwrap(inner) => b matches Expression::Unwrap(x) && expr_copied(*inner, *x),
        Expression::Query(spec) => b matches Expression::Query(x) && query_spec_copied(spec, x),
        Expression::Shader { shader_type, fields, constants } => b matches Expression::Shader { shader_type: s, fields: f, constants: c }
            && shader_type == s && shader_fields_copied(fields, f) && stmts_copied(constants, c),
        Expression::StaticPath { segments, type_args } => b matches Expression::StaticPath { segments: s, type_args: t }
            && segments@ == s@ && types_copied(type_args, t),
    }
}

pub open spec fn opt_boxed_expr_copied(a: Option<Box<Expression>>, b: Option<Box<Expression>>) -> bool
    decreases a,
{
    match a {
        Some(e) => b matches Some(x) && expr_copied(*e, *x),
        None => b is None,
    }
}

pub open spec fn opt_expr_copied(a: Option<Expression>, b: Option<Expression>) -> bool
    decreases a,
{
    match a {
        Some(e) => b matches Some(x) && expr_copied(e, x),
        None => b is None,
    }
}

pub open spec fn opt_stmts_copied(a: Option<Vec<Statement>>, b: Option<Vec<Statement>>) -> bool
    decreases a,
{
    match a {
        Some(v) => b matches Some(x) && stmts_copied(v, x),
        None => b is None,
    }
}

pub open spec fn stmt_copied(a: Statement, b: Statement) -> bool
    decreases a,
{
    match a {
        Statement::VariableDecl { name, type_annotation, value } => b matches Statement::VariableDecl { name: n, type_annotation: t, value: v }
            && name == n && opt_type_copied(type_annotation, t) && expr_copied(value, v),
        Statement::ConstDecl { attributes, name, type_params, type_annotation, value, extern_linkage } => b matches Statement::ConstDecl {
            attributes: a2,
            name: n,
            type_params: p,
            type_annotation: t,
            value: v,
            extern_linkage: l,
        } && attributes_copied(attributes, a2) && name == n && type_params_copied(type_params, p)
            && opt_type_copied(type_annotation, t) && const_value_copied(value, v) && extern_linkage == l,
        Statement::Assignment { target, operator, value } => b matches Statement::Assignment { target: t, operator: o, value: v }
            && expr_copied(target, t) && operator == o && expr_copied(value, v),
        Statement::Expression(e) => b matches Statement::Expression(x) && expr_copied(e, x),
        Statement::Return(e) => b matches Statement::Return(x) && opt_expr_copied(e, x),
        Statement::Break(e) => b matches Statement::Break(x) && opt_expr_copied(e, x),
        Statement::Use { is_public, path, alias } => b matches Statement::Use { is_public: p, path: x, alias: l }
            && is_public == p && path@ == x@ && alias == l,
        Statement::ImplBlock { type_params, trait_name, target_type, methods } => b matches Statement::ImplBlock {
            type_params: p,
            trait_name: n,
            target_type: t,
            methods: m,
        } && type_params_copied(type_params, p) && trait_name == n && target_type == t && stmts_copied(methods, m),
        Statement::ImplMethod { name, type_params, parameters, return_type, body } => b matches Statement::ImplMethod {
            name: n,
            type_params: t,
            parameters: p,
            return_type: r,
            body: x,
        } && name == n && type_params_copied(type_params, t) && parameters_copied(parameters, p)
            && opt_type_copied(return_type, r) && function_body_copied(body, x),
        Statement::ForLoop { variable, type_annotation, iterable, body } => b matches Statement::ForLoop {
            variable: v,
            type_annotation: t,
            iterable: i,
            body: x,
        } && variable == v && opt_type_copied(type_annotation, t) && expr_copied(iterable, i) && stmts_copied(body, x),
        Statement::ModuleDecl { is_public, name, items } => b matches Statement::ModuleDecl { is_public: p, name: n, items: x }
            && is_public == p && name == n && opt_stmts_copied(items, x),
        Statement::IfDef { condition, then_branch, else_branch } => b matches Statement::IfDef { condition: c, then_branch: t, else_branch: e }
            && condition == c && stmts_copied(then_branch, t) && opt_stmts_copied(else_branch, e),
    }
}

pub open spec fn const_value_copied(a: ConstValue, b: ConstValue) -> bool
    decreases a,
{
    match a {
        ConstValue::Type(t) => b matches ConstValue::Type(x) && type_copied(t, x),
        ConstValue::Expression(e) => b matches ConstValue::Expression(x) && expr_copied(e, x),
        ConstValue::TableDef(t) => b matches ConstValue::TableDef(x) && table_def_copied(t, x),
        ConstValue::SystemDef(d) => b matches ConstValue::SystemDef(x) && system_def_copied(d, x),
        ConstValue::ComposeDef(d) => b matches ConstValue::ComposeDef(x) && compose_def_copied(d, x),
        ConstValue::DatabaseDef(d) => b matches ConstValue::DatabaseDef(x) && d.entries@ == x.entries@,
    }
}

pub open spec fn compose_node_copied(a: ComposeNode, b: ComposeNode) -> bool {
    match a {
        ComposeNode::Single(name) => b == ComposeNode::Single(name),
        ComposeNode::Tuple(names) => b matches ComposeNode::Tuple(x) && names@ == x@,
    }
}

pub open spec fn compose_nodes_copied(a: Seq<ComposeNode>, b: Seq<ComposeNode>) -> bool {
    a.len() == b.len() && forall|i: int| 0 <= i < a.len() ==> compose_node_copied(#[trigger] a[i], b[i])
}

pub open spec fn compose_def_copied(a: ComposeDef, b: ComposeDef) -> bool {
    a.entries.len() == b.entries.len() && forall|i: int|
        0 <= i < a.entries.len() ==> compose_node_copied((#[trigger] a.entries[i]).source, b.entries[i].source)
            && compose_nodes_copied(a.entries[i].targets@, b.entries[i].targets@)
}

pub open spec fn table_def_copied(a: TableDef, b: TableDef) -> bool
    decreases a,
{
    a.name == b.name && table_columns_copied(a.columns, b.columns)
}

pub open spec fn table_column_copied(a: TableColumn, b: TableColumn) -> bool
    decreases a,
{
    a.name == b.name && type_copied(a.column_type, b.column_type) && annotations_copied(a.annotations, b.annotations)
        && opt_expr_copied(a.default_value, b.default_value) && a.is_computed == b.is_computed
        && opt_expr_copied(a.computed_expression, b.computed_expression)
}

pub open spec fn table_columns_copied(a: Vec<TableColumn>, b: Vec<TableColumn>) -> bool
    decreases a,
{
    a.len() == b.len() && forall|i: int| 0 <= i < a.len() ==> table_column_copied(#[trigger] a[i], b[i])
}

pub open spec fn annotations_copied(a: Vec<TableAnnotation>, b: Vec<TableAnnotation>) -> bool
    decreases a,
{
    a.len() == b.len() && forall|i: int|
        0 <= i < a.len() ==> (#[trigger] a[i]).name == b[i].name && exprs_copied(a[i].args, b[i].args)
}

pub open spec fn system_def_copied(a: SystemDef, b: SystemDef) -> bool
    decreases a,
{
    a.name == b.name && system_params_copied(a.parameters, b.parameters) && opt_type_copied(a.return_type, b.return_type)
        && stmts_copied(a.body, b.body) && a.is_async == b.is_async
}

pub open spec fn system_param_copied(a: SystemParameter, b: SystemParameter) -> bool
    decreases a,
{
    match a {
        SystemParameter::Query { name, query_spec } => b matches SystemParameter::Query { name: n, query_spec: q }
            && name == n && query_spec_copied(query_spec, q),
        SystemParameter::Resource { param_type, name, resource_type, access } => b matches SystemParameter::Resource {
            param_type: p,
            name: n,
            resource_type: t,
            access: x,
        } && param_type == p && name == n && type_copied(resource_type, t) && access == x,
        SystemParameter::Regular { param_type, name, value_type, default_value } => b matches SystemParameter::Regular {
            param_type: p,
            name: n,
            value_type: t,
            default_value: d,
        } && param_type == p && name == n && type_copied(value_type, t) && opt_expr_copied(default_value, d),
    }
}

pub open spec fn system_params_copied(a: Vec<SystemParameter>, b: Vec<SystemParameter>) -> bool
    decreases a,
{
    a.len() == b.len() && forall|i: int| 0 <= i < a.len() ==> system_param_copied(#[trigger] a[i], b[i])
}

pub open spec fn query_spec_copied(a: QuerySpec, b: QuerySpec) -> bool
    decreases a,
{
    field_projections_copied(a.projections, b.projections) && a.from_table == b.from_table
        && opt_boxed_expr_copied(a.where_clause, b.where_clause) && join_clauses_copied(a.joins, b.joins)
}

pub open spec fn field_projections_copied(a: Vec<FieldProjection>, b: Vec<FieldProjection>) -> bool
    decreases a,
{
    a.len() == b.len() && forall|i: int|
        0 <= i < a.len() ==> (#[trigger] a[i]).name == b[i].name && opt_type_copied(a[i].field_type, b[i].field_type)
            && a[i].access == b[i].access
}

pub open spec fn join_clauses_copied(a: Vec<JoinClause>, b: Vec<JoinClause>) -> bool
    decreases a,
{
    a.len() == b.len() && forall|i: int|
        0 <= i < a.len() ==> (#[trigger] a[i]).join_type == b[i].join_type && a[i].table == b[i].table
            && expr_copied(*a[i].condition, *b[i].condition)
}

pub open spec fn function_body_copied(a: FunctionBody, b: FunctionBody) -> bool
    decreases a,
{
    match a {
        FunctionBody::Expression(e) => b matches FunctionBody::Expression(x) && expr_copied(*e, *x),
        FunctionBody::Block(v) => b matches FunctionBody::Block(x) && stmts_copied(v, x),
    }
}

pub open spec fn exprs_copied(a: Vec<Expression>, b: Vec<Expression>) -> bool
    decreases a,
{
    a.len() == b.len() && forall|i: int| 0 <= i < a.len() ==> expr_copied(#[trigger] a[i], b[i])
}

pub open spec fn stmts_copied(a: Vec<Statement>, b: Vec<Statement>) -> bool
    decreases a,
{
    a.len() == b.len() && forall|i: int| 0 <= i < a.len() ==> stmt_copied(#[trigger] a[i], b[i])
}

pub open spec fn arguments_copied(a: Vec<Argument>, b: Vec<Argument>) -> bool
    decreases a,
{
    a.len() == b.len() && forall|i: int|
        0 <= i < a.len() ==> (#[trigger] a[i]).name == b[i].name && expr_copied(a[i].value, b[i].value)
}

pub open spec fn parameters_copied(a: Vec<Parameter>, b: Vec<Parameter>) -> bool
    decreases a,
{
    a.len() == b.len() && forall|i: int|
        0 <= i < a.len() ==> (#[trigger] a[i]).name == b[i].name && opt_type_copied(a[i].param_type, b[i].param_type)
            && opt_expr_copied(a[i].default_value, b[i].default_value)
}

pub open spec fn type_params_copied(a: Vec<TypeParam>, b: Vec<TypeParam>) -> bool
    decreases a,
{
    a.len() == b.len() && forall|i: int|
        0 <= i < a.len() ==> (#[trigger] a[i]).name == b[i].name && types_copied(a[i].bounds, b[i].bounds)
}

pub open spec fn match_arms_copied(a: Vec<MatchArm>, b: Vec<MatchArm>) -> bool
    decreases a,
{
    a.len() == b.len() && forall|i: int|
        0 <= i < a.len() ==> expr_copied((#[trigger] a[i]).pattern, b[i].pattern) && expr_copied(a[i].body, b[i].body)
}

pub open spec fn struct_fields_copied(a: Vec<(String, Expression)>, b: Vec<(String, Expression)>) -> bool
    decreases a,
{
    a.len() == b.len() && forall|i: int|
        0 <= i < a.len() ==> (#[trigger] a[i]).0 == b[i].0 && expr_copied(a[i].1, b[i].1)
}

pub open spec fn rows_copied(a: Vec<Vec<Expression>>, b: Vec<Vec<Expression>>) -> bool
    decreases a,
{
    a.len() == b.len() && forall|i: int| 0 <= i < a.len() ==> exprs_copied(#[trigger] a[i], b[i])
}

pub open spec fn shader_fields_copied(a: Vec<ShaderField>, b: Vec<ShaderField>) -> bool
    decreases a,
{
    a.len() == b.len() && forall|i: int|
        0 <= i < a.len() ==> (#[trigger] a[i]).name == b[i].name && type_copied(a[i].field_type, b[i].field_type)
}

pub open spec fn attributes_copied(a: Vec<Attribute>, b: Vec<Attribute>) -> bool
    decreases a,
{
    a.len() == b.len() && forall|i: int|
        0 <= i < a.len() ==> (#[trigger] a[i]).name == b[i].name && exprs_copied(a[i].arguments, b[i].arguments)
}

/// A copy of a type.
pub(crate) fn copy_type(t: &Type) -> (r: Type)
    ensures
        type_copied(*t, r),
    decreases t,
{
    match t {
        Type::Unit => Type::Unit,
        Type::Identifier { name, type_args } => Type::Identifier { name: name.clone(), type_args: copy_types(type_args) },
        Type::Pointer { is_mutable, pointee } => Type::Pointer {
            is_mutable: *is_mutable,
            pointee: Box::new(copy_type(&**pointee)),
        },
        Type::RawPointer { pointee } => Type::RawPointer { pointee: Box::new(copy_type(&**pointee)) },
        Type::Optional { inner } => Type::Optional { inner: Box::new(copy_type(&**inner)) },
        Type::Result { inner } => Type::Result { inner: Box::new(copy_type(&**inner)) },
        Type::Tuple(items) => Type::Tuple(copy_types(items)),
        Type::Matrix { element_type, dimensions } => Type::Matrix {
            element_type: Box::new(copy_type(&**element_type)),
            dimensions: dimensions.clone(),
        },
        Type::Function { parameters, return_type } => Type::Function {
            parameters: copy_types(parameters),
            return_type: Box::new(copy_type(&**return_type)),
        },
        Type::Struct { fields } => Type::Struct { fields: copy_named_types(fields) },
        Type::Enum { variants, order } => Type::Enum { variants: copy_variants(variants), order: order.clone() },
        Type::Trait { associated_types, methods } => Type::Trait {
            associated_types: associated_types.clone(),
            methods: copy_named_types(methods),
        },
        Type::Reference { is_mutable, inner } => Type::Reference {
            is_mutable: *is_mutable,
            inner: Box::new(copy_type(&**inner)),
        },
    }
}

fn copy_types(v: &Vec<Type>) -> (r: Vec<Type>)
    ensures
        types_copied(*v, r),
    decreases v,
{
    let mut r: Vec<Type> = Vec::new();
    let mut i: usize = 0;
    while i < v.len()
        invariant
            i <= v.len(),
            r.len() == i,
            forall|k: int| #![trigger r[k]] 0 <= k < i ==> type_copied(v[k], r[k]),
        decreases v.len() - i,
    {
        r.push(copy_type(&v[i]));
        i = i + 1;
    }
    r
}

fn copy_named_types(v: &Vec<(String, Type)>) -> (r: Vec<(String, Type)>)
    ensures
        named_types_copied(*v, r),
    decreases v,
{
    let mut r: Vec<(String, Type)> = Vec::new();
    let mut i: usize = 0;
    while i < v.len()
        invariant
            i <= v.len(),
            r.len() == i,
            forall|k: int| #![trigger r[k]] 0 <= k < i ==> v[k].0 == r[k].0 && type_copied(v[k].1, r[k].1),
        decreases v.len() - i,
    {
        r.push((v[i].0.clone(), copy_type(&v[i].1)));
        i = i + 1;
    }
    r
}

fn copy_variants(v: &Vec<(String, Option<Type>)>) -> (r: Vec<(String, Option<Type>)>)
    ensures
        variants_copied(*v, r),
    decreases v,
{
    let mut r: Vec<(String, Option<Type>)> = Vec::new();
    let mut i: usize = 0;
    while i < v.len()
        invariant
            i <= v.len(),
            r.len() == i,
            forall|k: int| #![trigger r[k]] 0 <= k < i ==> v[k].0 == r[k].0 && opt_type_copied(v[k].1, r[k].1),
        decreases v.len() - i,
    {
        r.push((v[i].0.clone(), copy_opt_type(&v[i].1)));
        i = i + 1;
    }
    r
}

fn copy_opt_type(t: &Option<Type>) -> (r: Option<Type>)
    ensures
        opt_type_copied(*t, r),
    decreases t,
{
    match t {
        Some(t) => Some(copy_type(t)),
        None => None,
    }
}

/// A copy of an expression.
pub(crate) fn copy_expression(e: &Expression) -> (r: Expression)
    ensures
        expr_copied(*e, r),
    decreases e,
{
    match e {
        Expression::Literal(lit) => Expression::Literal(copy_literal(lit)),
        Expression::Identifier(name) => Expression::Identifier(name.clone()),
        Expression::BinaryOp { left, operator, right } => Expression::BinaryOp {
            left: Box::new(copy_expression(&**left)),
            operator: *operator,
            right: Box::new(copy_expression(&**right)),
        },
        Expression::UnaryOp { operator, operand } => Expression::UnaryOp {
            operator: *operator,
            operand: Box::new(copy_expression(&**operand)),
        },
        Expression::Cast { value, to_type } => Expression::Cast {
            value: Box::new(copy_expression(&**value)),
            to_type: copy_type(to_type),
        },
        Expression::Call { function, type_args, arguments } => Expression::Call {
            function: Box::new(copy_expression(&**function)),
            type_args: copy_types(type_args),
            arguments: copy_arguments(arguments),
        },
        Expression::FieldAccess { object, field } => Expression::FieldAccess {
            object: Box::new(copy_expression(&**object)),
            field: field.clone(),
        },
        Expression::Index { object, indices } => Expression::Index {
            object: Box::new(copy_expression(&**object)),
            indices: copy_expressions(indices),
        },
        Expression::If { condition, then_branch, else_branch } => Expression::If {
            condition: Box::new(copy_expression(&**condition)),
            then_branch: copy_statements(then_branch),
            else_branch: copy_opt_statements(else_branch),
        },
        Expression::IfExpr { condition, then_expr, else_expr } => Expression::IfExpr {
            condition: Box::new(copy_expression(&**condition)),
            then_expr: Box::new(copy_expression(&**then_expr)),
            else_expr: copy_opt_boxed_expression(else_expr),
        },
        Expression::Loop { body } => Expression::Loop { body: copy_statements(body) },
        Expression::Block { statements } => Expression::Block { statements: copy_statements(statements) },
        Expression::UnsafeBlock { statements } => Expression::UnsafeBlock { statements: copy_statements(statements) },
        Expression::Function { is_async, type_params, parameters, return_type, body } => Expression::Function {
            is_async: *is_async,
            type_params: copy_type_params(type_params),
            parameters: copy_parameters(parameters),
            return_type: copy_opt_type(return_type),
            body: copy_function_body(body),
        },
        Expression::Tuple(items) => Expression::Tuple(copy_expressions(items)),
        Expression::Match { value, arms } => Expression::Match {
            value: Box::new(copy_expression(&**value)),
            arms: copy_match_arms(arms),
        },
        Expression::StructLiteral { struct_name, fields } => Expression::StructLiteral {
            struct_name: struct_name.clone(),
            fields: copy_struct_fields(fields),
        },
        Expression::ArrayNew { element_type, dimensions } => Expression::ArrayNew {
            element_type: copy_type(element_type),
            dimensions: copy_expressions(dimensions),
        },
        Expression::Matrix { rows } => Expression::Matrix { rows: copy_rows(rows) },
        Expression::Range { start, end, step } => Expression::Range {
            start: Box::new(copy_expression(&**start)),
            end: Box::new(copy_expression(&**end)),
            step: copy_opt_boxed_expression(step),
        },
        Expression::Question(inner) => Expression::Question(Box::new(copy_expression(&**inner))),
        Expression::Unwrap(inner) => Expression::Unwrap(Box::new(copy_expression(&**inner))),
        Expression::Query(spec) => Expression::Query(copy_query_spec(spec)),
        Expression::Shader { shader_type, fields, constants } => Expression::Shader {
            shader_type: *shader_type,
            fields: copy_shader_fields(fields),
            constants: copy_statements(constants),
        },
        Expression::StaticPath { segments, type_args } => Expression::StaticPath {
            segments: segments.clone(),
            type_args: copy_types(type_args),
        },
    }
}

fn copy_opt_boxed_expression(e: &Option<Box<Expression>>) -> (r: Option<Box<Expression>>)
    ensures
        opt_boxed_expr_copied(*e, r),
    decreases e,
{
    match e {
        Some(b) => Some(Box::new(copy_expression(&**b))),
        None => None,
    }
}

fn copy_opt_expression(e: &Option<Expression>) -> (r: Option<Expression>)
    ensures
        opt_expr_copied(*e, r),
    decreases e,
{
    match e {
        Some(e) => Some(copy_expression(e)),
        None => None,
    }
}

fn copy_opt_statements(v: &Option<Vec<Statement>>) -> (r: Option<Vec<Statement>>)
    ensures
        opt_stmts_copied(*v, r),
    decreases v,
{
    match v {
        Some(v) => Some(copy_statements(v)),
        None => None,
    }
}

fn copy_statement(s: &Statement) -> (r: Statement)
    ensures
        stmt_copied(*s, r),
    decreases s,
{
    match s {
        Statement::VariableDecl { name, type_annotation, value } => Statement::VariableDecl {
            name: name.clone(),
            type_annotation: copy_opt_type(type_annotation),
            value: copy_expression(value),
        },
        Statement::ConstDecl { attributes, name, type_params, type_annotation, value, extern_linkage } => Statement::ConstDecl {
            attributes: copy_attributes(attributes),
            name: name.clone(),
            type_params: copy_type_params(type_params),
            type_annotation: copy_opt_type(type_annotation),
            value: copy_const_value(value),
            extern_linkage: extern_linkage.clone(),
        },
        Statement::Assignment { target, operator, value } => Statement::Assignment {
            target: copy_expression(target),
            operator: *operator,
            value: copy_expression(value),
        },
        Statement::Expression(e) => Statement::Expression(copy_expression(e)),
        Statement::Return(e) => Statement::Return(copy_opt_expression(e)),
        Statement::Break(e) => Statement::Break(copy_opt_expression(e)),
        Statement::Use { is_public, path, alias } => Statement::Use {
            is_public: *is_public,
            path: path.clone(),
            alias: alias.clone(),
        },
        Statement::ImplBlock { type_params, trait_name, target_type, methods } => Statement::ImplBlock {
            type_params: copy_type_params(type_params),
            trait_name: trait_name.clone(),
            target_type: target_type.clone(),
            methods: copy_statements(methods),
        },
        Statement::ImplMethod { name, type_params, parameters, return_type, body } => Statement::ImplMethod {
            name: name.clone(),
            type_params: copy_type_params(type_params),
            parameters: copy_parameters(parameters),
            return_type: copy_opt_type(return_type),
            body: copy_function_body(body),
        },
        Statement::ForLoop { variable, type_annotation, iterable, body } => Statement::ForLoop {
            variable: variable.clone(),
            type_annotation: copy_opt_type(type_annotation),
            iterable: copy_expression(iterable),
            body: copy_statements(body),
        },
        Statement::ModuleDecl { is_public, name, items } => Statement::ModuleDecl {
            is_public: *is_public,
            name: name.clone(),
            items: copy_opt_statements(items),
        },
        Statement::IfDef { condition, then_branch, else_branch } => Statement::IfDef {
            condition: condition.clone(),
            then_branch: copy_statements(then_branch),
            else_branch: copy_opt_statements(else_branch),
        },
    }
}

fn copy_const_value(v: &ConstValue) -> (r: ConstValue)
    ensures
        const_value_copied(*v, r),
    decreases v,
{
    match v {
        ConstValue::Type(t) => ConstValue::Type(copy_type(t)),
        ConstValue::Expression(e) => ConstValue::Expression(copy_expression(e)),
        ConstValue::TableDef(t) => ConstValue::TableDef(copy_table_def(t)),
        ConstValue::SystemDef(d) => ConstValue::SystemDef(copy_system_def(d)),
        ConstValue::ComposeDef(d) => ConstValue::ComposeDef(copy_compose_def(d)),
        ConstValue::DatabaseDef(d) => ConstValue::DatabaseDef(copy_database_def(d)),
    }
}

fn copy_table_def(t: &TableDef) -> (r: TableDef)
    ensures
        table_def_copied(*t, r),
    decreases t,
{
    TableDef { name: t.name.clone(), columns: copy_table_columns(&t.columns) }
}

fn copy_table_column(c: &TableColumn) -> (r: TableColumn)
    ensures
        table_column_copied(*c, r),
    decreases c,
{
    TableColumn {
        name: c.name.clone(),
        column_type: copy_type(&c.column_type),
        annotations: copy_annotations(&c.annotations),
        default_value: copy_opt_expression(&c.default_value),
        is_computed: c.is_computed,
        computed_expression: copy_opt_expression(&c.computed_expression),
    }
}

fn copy_system_def(d: &SystemDef) -> (r: SystemDef)
    ensures
        system_def_copied(*d, r),
    decreases d,
{
    SystemDef {
        name: d.name.clone(),
        parameters: copy_system_parameters(&d.parameters),
        return_type: copy_opt_type(&d.return_type),
        body: copy_statements(&d.body),
        is_async: d.is_async,
    }
}

fn copy_system_parameter(p: &SystemParameter) -> (r: SystemParameter)
    ensures
        system_param_copied(*p, r),
    decreases p,
{
    match p {
        SystemParameter::Query { name, query_spec } => SystemParameter::Query {
            name: name.clone(),
            query_spec: copy_query_spec(query_spec),
        },
        SystemParameter::Resource { param_type, name, resource_type, access } => SystemParameter::Resource {
            param_type: param_type.clone(),
            name: name.clone(),
            resource_type: copy_type(resource_type),
            access: *access,
        },
        SystemParameter::Regular { param_type, name, value_type, default_value } => SystemParameter::Regular {
            param_type: param_type.clone(),
            name: name.clone(),
            value_type: copy_type(value_type),
            default_value: copy_opt_expression(default_value),
        },
    }
}

fn copy_query_spec(q: &QuerySpec) -> (r: QuerySpec)
    ensures
        query_spec_copied(*q, r),
    decreases q,
{
    QuerySpec {
        projections: copy_field_projections(&q.projections),
        from_table: q.from_table.clone(),
        where_clause: copy_opt_boxed_expression(&q.where_clause),
        joins: copy_join_clauses(&q.joins),
    }
}

fn copy_function_body(b: &FunctionBody) -> (r: FunctionBody)
    ensures
        function_body_copied(*b, r),
    decreases b,
{
    match b {
        FunctionBody::Expression(e) => FunctionBody::Expression(Box::new(copy_expression(&**e))),
        FunctionBody::Block(statements) => FunctionBody::Block(copy_statements(statements)),
    }
}

fn copy_expressions(v: &Vec<Expression>) -> (r: Vec<Expression>)
    ensures
        exprs_copied(*v, r),
    decreases v,
{
    let mut r: Vec<Expression> = Vec::new();
    let mut i: usize = 0;
    while i < v.len()
        invariant
            i <= v.len(),
            r.len() == i,
            forall|k: int| #![trigger r[k]] 0 <= k < i ==> expr_copied(v[k], r[k]),
        decreases v.len() - i,
    {
        r.push(copy_expression(&v[i]));
        i = i + 1;
    }
    r
}

fn copy_statements(v: &Vec<Statement>) -> (r: Vec<Statement>)
    ensures
        stmts_copied(*v, r),
    decreases v,
{
    let mut r: Vec<Statement> = Vec::new();
    let mut i: usize = 0;
    while i < v.len()
        invariant
            i <= v.len(),
            r.len() == i,
            forall|k: int| #![trigger r[k]] 0 <= k < i ==> stmt_copied(v[k], r[k]),
        decreases v.len() - i,
    {
        r.push(copy_statement(&v[i]));
        i = i + 1;
    }
    r
}

fn copy_arguments(v: &Vec<Argument>) -> (r: Vec<Argument>)
    ensures
        arguments_copied(*v, r),
    decreases v,
{
    let mut r: Vec<Argument> = Vec::new();
    let mut i: usize = 0;
    while i < v.len()
        invariant
            i <= v.len(),
            r.len() == i,
            forall|k: int| #![trigger r[k]] 0 <= k < i ==> v[k].name == r[k].name && expr_copied(v[k].value, r[k].value),
        decreases v.len() - i,
    {
        r.push(Argument { name: v[i].name.clone(), value: copy_expression(&v[i].value) });
        i = i + 1;
    }
    r
}

fn copy_parameters(v: &Vec<Parameter>) -> (r: Vec<Parameter>)
    ensures
        parameters_copied(*v, r),
    decreases v,
{
    let mut r: Vec<Parameter> = Vec::new();
    let mut i: usize = 0;
    while i < v.len()
        invariant
            i <= v.len(),
            r.len() == i,
            forall|k: int| #![trigger r[k]] 0 <= k < i ==> v[k].name == r[k].name && opt_type_copied(v[k].param_type, r[k].param_type) && opt_expr_copied(v[k].default_value, r[k].default_value),
        decreases v.len() - i,
    {
        r.push(Parameter { name: v[i].name.clone(), param_type: copy_opt_type(&v[i].param_type), default_value: copy_opt_expression(&v[i].default_value) });
        i = i + 1;
    }
    r
}

fn copy_type_params(v: &Vec<TypeParam>) -> (r: Vec<TypeParam>)
    ensures
        type_params_copied(*v, r),
    decreases v,
{
    let mut r: Vec<TypeParam> = Vec::new();
    let mut i: usize = 0;
    while i < v.len()
        invariant
            i <= v.len(),
            r.len() == i,
            forall|k: int| #![trigger r[k]] 0 <= k < i ==> v[k].name == r[k].name && types_copied(v[k].bounds, r[k].bounds),
        decreases v.len() - i,
    {
        r.push(TypeParam { name: v[i].name.clone(), bounds: copy_types(&v[i].bounds) });
        i = i + 1;
    }
    r
}

fn copy_match_arms(v: &Vec<MatchArm>) -> (r: Vec<MatchArm>)
    ensures
        match_arms_copied(*v, r),
    decreases v,
{
    let mut r: Vec<MatchArm> = Vec::new();
    let mut i: usize = 0;
    while i < v.len()
        invariant
            i <= v.len(),
            r.len() == i,
            forall|k: int| #![trigger r[k]] 0 <= k < i ==> expr_copied(v[k].pattern, r[k].pattern) && expr_copied(v[k].body, r[k].body),
        decreases v.len() - i,
    {
        r.push(MatchArm { pattern: copy_expression(&v[i].pattern), body: copy_expression(&v[i].body) });
        i = i + 1;
    }
    r
}

fn copy_struct_fields(v: &Vec<(String, Expression)>) -> (r: Vec<(String, Expression)>)
    ensures
        struct_fields_copied(*v, r),
    decreases v,
{
    let mut r: Vec<(String, Expression)> = Vec::new();
    let mut i: usize = 0;
    while i < v.len()
        invariant
            i <= v.len(),
            r.len() == i,
            forall|k: int| #![trigger r[k]] 0 <= k < i ==> v[k].0 == r[k].0 && expr_copied(v[k].1, r[k].1),
        decreases v.len() - i,
    {
        r.push((v[i].0.clone(), copy_expression(&v[i].1)));
        i = i + 1;
    }
    r
}

fn copy_rows(v: &Vec<Vec<Expression>>) -> (r: Vec<Vec<Expression>>)
    ensures
        rows_copied(*v, r),
    decreases v,
{
    let mut r: Vec<Vec<Expression>> = Vec::new();
    let mut i: usize = 0;
    while i < v.len()
        invariant
            i <= v.len(),
            r.len() == i,
            forall|k: int| #![trigger r[k]] 0 <= k < i ==> exprs_copied(v[k], r[k]),
        decreases v.len() - i,
    {
        r.push(copy_expressions(&v[i]));
        i = i + 1;
    }
    r
}

fn copy_shader_fields(v: &Vec<ShaderField>) -> (r: Vec<ShaderField>)
    ensures
        shader_fields_copied(*v, r),
    decreases v,
{
    let mut r: Vec<ShaderField> = Vec::new();
    let mut i: usize = 0;
    while i < v.len()
        invariant
            i <= v.len(),
            r.len() == i,
            forall|k: int| #![trigger r[k]] 0 <= k < i ==> v[k].name == r[k].name && type_copied(v[k].field_type, r[k].field_type),
        decreases v.len() - i,
    {
        r.push(ShaderField { name: v[i].name.clone(), field_type: copy_type(&v[i].field_type) });
        i = i + 1;
    }
    r
}

fn copy_attributes(v: &Vec<Attribute>) -> (r: Vec<Attribute>)
    ensures
        attributes_copied(*v, r),
    decreases v,
{
    let mut r: Vec<Attribute> = Vec::new();
    let mut i: usize = 0;
    while i < v.len()
        invariant
            i <= v.len(),
            r.len() == i,
            forall|k: int| #![trigger r[k]] 0 <= k < i ==> v[k].name == r[k].name && exprs_copied(v[k].arguments, r[k].arguments),
        decreases v.len() - i,
    {
        r.push(Attribute { name: v[i].name.clone(), arguments: copy_expressions(&v[i].arguments) });
        i = i + 1;
    }
    r
}

fn copy_table_columns(v: &Vec<TableColumn>) -> (r: Vec<TableColumn>)
    ensures
        table_columns_copied(*v, r),
    decreases v,
{
    let mut r: Vec<TableColumn> = Vec::new();
    let mut i: usize = 0;
    while i < v.len()
        invariant
            i <= v.len(),
            r.len() == i,
            forall|k: int| #![trigger r[k]] 0 <= k < i ==> table_column_copied(v[k], r[k]),
        decreases v.len() - i,
    {
        r.push(copy_table_column(&v[i]));
        i = i + 1;
    }
    r
}

fn copy_annotations(v: &Vec<TableAnnotation>) -> (r: Vec<TableAnnotation>)
    ensures
        annotations_copied(*v, r),
    decreases v,
{
    let mut r: Vec<TableAnnotation> = Vec::new();
    let mut i: usize = 0;
    while i < v.len()
        invariant
            i <= v.len(),
            r.len() == i,
            forall|k: int| #![trigger r[k]] 0 <= k < i ==> v[k].name == r[k].name && exprs_copied(v[k].args, r[k].args),
        decreases v.len() - i,
    {
        r.push(TableAnnotation { name: v[i].name.clone(), args: copy_expressions(&v[i].args) });
        i = i + 1;
    }
    r
}

fn copy_system_parameters(v: &Vec<SystemParameter>) -> (r: Vec<SystemParameter>)
    ensures
        system_params_copied(*v, r),
    decreases v,
{
    let mut r: Vec<SystemParameter> = Vec::new();
    let mut i: usize = 0;
    while i < v.len()
        invariant
            i <= v.len(),
            r.len() == i,
            forall|k: int| #![trigger r[k]] 0 <= k < i ==> system_param_copied(v[k], r[k]),
        decreases v.len() - i,
    {
        r.push(copy_system_parameter(&v[i]));
        i = i + 1;
    }
    r
}

fn copy_field_projections(v: &Vec<FieldProjection>) -> (r: Vec<FieldProjection>)
    ensures
        field_projections_copied(*v, r),
    decreases v,
{
    let mut r: Vec<FieldProjection> = Vec::new();
    let mut i: usize = 0;
    while i < v.len()
        invariant
            i <= v.len(),
            r.len() == i,
            forall|k: int| #![trigger r[k]] 0 <= k < i ==> v[k].name == r[k].name && opt_type_copied(v[k].field_type, r[k].field_type) && v[k].access == r[k].access,
        decreases v.len() - i,
    {
        r.push(FieldProjection { name: v[i].name.clone(), field_type: copy_opt_type(&v[i].field_type), access: v[i].access });
        i = i + 1;
    }
    r
}

fn copy_join_clauses(v: &Vec<JoinClause>) -> (r: Vec<JoinClause>)
    ensures
        join_clauses_copied(*v, r),
    decreases v,
{
    let mut r: Vec<JoinClause> = Vec::new();
    let mut i: usize = 0;
    while i < v.len()
        invariant
            i <= v.len(),
            r.len() == i,
            forall|k: int| #![trigger r[k]] 0 <= k < i ==> v[k].join_type == r[k].join_type && v[k].table == r[k].table && expr_copied(*v[k].condition, *r[k].condition),
        decreases v.len() - i,
    {
        r.push(JoinClause { join_type: v[i].join_type, table: v[i].table.clone(), condition: Box::new(copy_expression(&*v[i].condition)) });
        i = i + 1;
    }
    r
}

fn copy_literal(lit: &Literal) -> (r: Literal)
    ensures
        r == *lit,
{
    match lit {
        Literal::Integer(i) => Literal::Integer(IntegerLiteral { raw: i.raw.clone(), value: i.value, suffix: i.suffix }),
        Literal::Float(bits) => Literal::Float(*bits),
        Literal::String(text) => Literal::String(text.clone()),
        Literal::Boolean(b) => Literal::Boolean(*b),
        Literal::Char(c) => Literal::Char(*c),
    }
}

fn copy_compose_node(n: &ComposeNode) -> (r: ComposeNode)
    ensures
        compose_node_copied(*n, r),
{
    match n {
        ComposeNode::Single(name) => ComposeNode::Single(name.clone()),
        ComposeNode::Tuple(names) => ComposeNode::Tuple(names.clone()),
    }
}

fn copy_compose_def(d: &ComposeDef) -> (r: ComposeDef)
    ensures
        compose_def_copied(*d, r),
{
    let mut entries: Vec<ComposeEntry> = Vec::new();
    let mut i: usize = 0;
    while i < d.entries.len()
        invariant
            i <= d.entries.len(),
            entries.len() == i,
            forall|k: int| #![trigger entries[k]] 0 <= k < i ==> compose_node_copied(d.entries[k].source, entries[k].source)
                && compose_nodes_copied(d.entries[k].targets@, entries[k].targets@),
        decreases d.entries.len() - i,
    {
        let entry = &d.entries[i];
        let mut targets: Vec<ComposeNode> = Vec::new();
        let mut j: usize = 0;
        while j < entry.targets.len()
            invariant
                j <= entry.targets.len(),
                targets.len() == j,
                forall|k: int| #![trigger targets[k]] 0 <= k < j ==> compose_node_copied(entry.targets[k], targets[k]),
            decreases entry.targets.len() - j,
        {
            targets.push(copy_compose_node(&entry.targets[j]));
            j = j + 1;
        }
        entries.push(ComposeEntry { source: copy_compose_node(&entry.source), targets });
        i = i + 1;
    }
    ComposeDef { entries }
}

fn copy_database_def(d: &DatabaseDef) -> (r: DatabaseDef)
    ensures
        r.entries@ == d.entries@,
{
    let mut entries: Vec<DatabaseEntry> = Vec::new();
    let mut i: usize = 0;
    while i < d.entries.len()
        invariant
            i <= d.entries.len(),
            entries@ == d.entries@.take(i as int),
        decreases d.entries.len() - i,
    {
        entries.push(DatabaseEntry { name: d.entries[i].name.clone(), table_type: d.entries[i].table_type.clone() });
        proof {
            assert(d.entries@.take(i + 1) =~= d.entries@.take(i as int).push(d.entries@[i as int]));
        }
        i = i + 1;
    }
    proof {
        assert(d.entries@.take(i as int) =~= d.entries@);
    }
    DatabaseDef { entries }
}

} // verus!
