use tricti::ast::{BinaryOperator, Expression, TableColumn, TableDef, Type};
use tricti::computed_columns::{DependencyError, DependencyGraph};
use tricti::names::NameSet;

fn plain_column(name: &str, column_type: &str) -> TableColumn {
    TableColumn {
        name: name.to_string(),
        column_type: Type::Identifier { name: column_type.to_string(), type_args: vec![] },
        annotations: vec![],
        default_value: None,
        is_computed: false,
        computed_expression: None,
    }
}

fn computed_column(name: &str, expr: Expression) -> TableColumn {
    TableColumn {
        name: name.to_string(),
        column_type: Type::Unit,
        annotations: vec![],
        default_value: None,
        is_computed: true,
        computed_expression: Some(expr),
    }
}

fn ident(name: &str) -> Expression {
    Expression::Identifier(name.to_string())
}

fn product(a: &str, b: &str) -> Expression {
    Expression::BinaryOp {
        left: Box::new(ident(a)),
        operator: BinaryOperator::Mul,
        right: Box::new(ident(b)),
    }
}

#[test]
fn test_simple_dependency_extraction() {
    let expr = product("price", "tax_rate");

    let mut column_names = NameSet::new();
    column_names.insert("price".to_string());
    column_names.insert("tax_rate".to_string());

    let deps = DependencyGraph::extract_column_dependencies(&expr, &column_names).unwrap();
    assert_eq!(deps.len(), 2);
    assert!(deps.contains("price"));
    assert!(deps.contains("tax_rate"));
}

#[test]
fn test_dependency_graph_building() {
    let table = TableDef {
        name: "Orders".to_string(),
        columns: vec![
            plain_column("quantity", "u64"),
            plain_column("unit_price", "f64"),
            computed_column("subtotal", product("quantity", "unit_price")),
        ],
    };

    let graph = DependencyGraph::build_from_table(&table).unwrap();
    assert_eq!(graph.dependencies.len(), 1);
    assert!(graph.dependencies.contains_key("subtotal"));

    let subtotal_deps = graph.get_dependencies("subtotal").unwrap();
    assert_eq!(subtotal_deps.len(), 2);
    assert!(subtotal_deps.contains("quantity"));
    assert!(subtotal_deps.contains("unit_price"));
}

#[test]
fn test_circular_dependency_detection() {
    let table = TableDef {
        name: "Circular".to_string(),
        columns: vec![computed_column("a", ident("b")), computed_column("b", ident("a"))],
    };

    let result = DependencyGraph::build_from_table(&table);
    assert!(result.is_err());
    if let Err(DependencyError::CircularDependency(cycle)) = result {
        assert_eq!(cycle.len(), 2);
    } else {
        panic!("Expected circular dependency error");
    }
}

#[test]
fn unknown_names_are_not_dependencies() {
    let expr = product("price", "discount");
    let mut column_names = NameSet::new();
    column_names.insert("price".to_string());
    let deps = DependencyGraph::extract_column_dependencies(&expr, &column_names).unwrap();
    assert_eq!(deps.len(), 1);
    assert!(deps.contains("price"));
    assert!(!deps.contains("discount"));
}

#[test]
fn evaluation_order_puts_reads_first() {
    let table = TableDef {
        name: "Chain".to_string(),
        columns: vec![
            plain_column("base", "u64"),
            computed_column("total", product("subtotal", "base")),
            computed_column("subtotal", product("base", "base")),
        ],
    };
    let graph = DependencyGraph::build_from_table(&table).unwrap();
    let order = graph.get_evaluation_order();
    assert_eq!(order, &vec!["subtotal".to_string(), "total".to_string()]);
    assert!(graph.is_computed_column("total"));
    assert!(!graph.is_computed_column("base"));
    let dependents = graph.get_dependents("subtotal");
    assert_eq!(dependents, vec!["total".to_string()]);
}
